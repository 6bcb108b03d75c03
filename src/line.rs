use vstd::prelude::*;

use crate::coordinate::{lat_lng_of_text, split_lat_lng};
use crate::error::GeoError;
use crate::instant::{instant_of_text, offset_seconds, seconds_between, Instant};

verus! {

/// One timestamped position. `lat`, `lng` are in billionths of a degree,
/// `altitude` in billionths of a metre; `relative_seconds` is the offset of
/// `timestamp` from the instant being looked up, rounded to whole seconds.
#[derive(Clone, Copy, Debug, PartialEq, Eq, Structural)]
pub struct Point {
    pub lat: i64,
    pub lng: i64,
    pub altitude: Option<i64>,
    pub timestamp: Instant,
    pub relative_seconds: i64,
}

/// The observation that a record with coordinate text `lat_lng`, timestamp
/// text `time` and `altitude` gives for a lookup at `query`.
pub open spec fn point_of_record(
    lat_lng: Seq<char>,
    time: Seq<char>,
    altitude: Option<i64>,
    query: Instant,
) -> Result<Point, GeoError> {
    match instant_of_text(time) {
        None => Err(GeoError::MalformedTimestamp),
        Some(t) => match lat_lng_of_text(lat_lng) {
            None => Err(GeoError::MalformedCoordinate),
            Some((lat, lng)) => Ok(
                Point {
                    lat,
                    lng,
                    altitude,
                    timestamp: t,
                    relative_seconds: offset_seconds(t, query) as i64,
                },
            ),
        },
    }
}

impl Point {
    /// Reads one record: its timestamp first, then its coordinates, and
    /// measures the timestamp against `relative_timestamp`.
    pub fn from_timeline(
        lat_lng: &str,
        point_timestamp: &String,
        altitude: &Option<i64>,
        relative_timestamp: &Instant,
    ) -> (r: Result<Point, GeoError>)
        requires
            relative_timestamp.wf(),
        ensures
            r == point_of_record(lat_lng@, point_timestamp@, *altitude, *relative_timestamp),
            r is Ok ==> r->Ok_0.timestamp.wf() && r->Ok_0.relative_seconds == offset_seconds(
                r->Ok_0.timestamp,
                *relative_timestamp,
            ),
    {
        let timestamp = match Instant::parse_rfc3339(point_timestamp.as_str()) {
            Some(t) => t,
            None => {
                return Err(GeoError::MalformedTimestamp);
            },
        };
        let relative_seconds = seconds_between(&timestamp, relative_timestamp);
        match split_lat_lng(lat_lng) {
            Some((lat, lng)) => Ok(
                Point { lat, lng, altitude: *altitude, timestamp, relative_seconds },
            ),
            None => Err(GeoError::MalformedCoordinate),
        }
    }

    /// Latitude and longitude, in billionths of a degree, from text such as
    /// `"54.7973628°, -1.5921431°"`.
    pub fn parse_lat_lng(lat_lng: &str) -> (r: Option<(i64, i64)>)
        ensures
            r == lat_lng_of_text(lat_lng@),
    {
        split_lat_lng(lat_lng)
    }
}

/// `s[i]` is the nearest observation at or before the query instant: its
/// offset is not positive, no such offset in `s` is larger, and no later one
/// equals it.
pub open spec fn is_nearest_before(s: Seq<Point>, i: int) -> bool {
    &&& 0 <= i < s.len()
    &&& s[i].relative_seconds <= 0
    &&& forall|j: int|
        0 <= j < s.len() && #[trigger] s[j].relative_seconds <= 0 ==> s[j].relative_seconds
            <= s[i].relative_seconds
    &&& forall|j: int|
        i < j < s.len() && #[trigger] s[j].relative_seconds <= 0 ==> s[j].relative_seconds
            < s[i].relative_seconds
}

/// `s[i]` is the nearest observation at or after the query instant: its
/// offset is not negative, no such offset in `s` is smaller, and no later one
/// equals it.
pub open spec fn is_nearest_after(s: Seq<Point>, i: int) -> bool {
    &&& 0 <= i < s.len()
    &&& s[i].relative_seconds >= 0
    &&& forall|j: int|
        0 <= j < s.len() && #[trigger] s[j].relative_seconds >= 0 ==> s[j].relative_seconds
            >= s[i].relative_seconds
    &&& forall|j: int|
        i < j < s.len() && #[trigger] s[j].relative_seconds >= 0 ==> s[j].relative_seconds
            > s[i].relative_seconds
}

/// The nearest candidate at or before the query instant, the last one where
/// several share its offset.
pub open spec fn nearest_before(s: Seq<Point>) -> Option<Point> {
    if exists|i: int| is_nearest_before(s, i) {
        Some(s[choose|i: int| is_nearest_before(s, i)])
    } else {
        None
    }
}

/// The nearest candidate at or after the query instant, the last one where
/// several share its offset.
pub open spec fn nearest_after(s: Seq<Point>) -> Option<Point> {
    if exists|i: int| is_nearest_after(s, i) {
        Some(s[choose|i: int| is_nearest_after(s, i)])
    } else {
        None
    }
}

/// The bracket that candidates `s` give: their nearest observations on both
/// sides of the query instant, when both exist. A candidate at the query
/// instant itself stands on both sides.
pub open spec fn bracket_of(s: Seq<Point>) -> Option<Line> {
    match (nearest_before(s), nearest_after(s)) {
        (Some(start), Some(end)) => Some(Line { start, end }),
        _ => None,
    }
}

/// The earlier side of a bracket once `p` has been seen: `p` replaces the
/// current one when it is at or before the query and no farther from it.
pub open spec fn closer_before(current: Option<Point>, p: Point) -> Option<Point> {
    if p.relative_seconds <= 0 && (current is None || current->0.relative_seconds
        <= p.relative_seconds) {
        Some(p)
    } else {
        current
    }
}

/// The later side of a bracket once `p` has been seen: `p` replaces the
/// current one when it is at or after the query and no farther from it.
pub open spec fn closer_after(current: Option<Point>, p: Point) -> Option<Point> {
    if p.relative_seconds >= 0 && (current is None || p.relative_seconds
        <= current->0.relative_seconds) {
        Some(p)
    } else {
        current
    }
}

/// `b` is the nearest candidate of `s` at or before the query, or `None` when
/// every candidate of `s` lies after it.
pub open spec fn tracks_before(s: Seq<Point>, b: Option<Point>) -> bool {
    match b {
        Some(x) => exists|i: int| is_nearest_before(s, i) && s[i] == x,
        None => forall|j: int| 0 <= j < s.len() ==> #[trigger] s[j].relative_seconds > 0,
    }
}

/// `a` is the nearest candidate of `s` at or after the query, or `None` when
/// every candidate of `s` lies before it.
pub open spec fn tracks_after(s: Seq<Point>, a: Option<Point>) -> bool {
    match a {
        Some(x) => exists|i: int| is_nearest_after(s, i) && s[i] == x,
        None => forall|j: int| 0 <= j < s.len() ==> #[trigger] s[j].relative_seconds < 0,
    }
}

/// Offering one more candidate keeps the earlier side as `tracks_before`
/// describes it.
pub proof fn lemma_before_step(s: Seq<Point>, p: Point, b: Option<Point>)
    requires
        tracks_before(s, b),
    ensures
        tracks_before(s.push(p), closer_before(b, p)),
{
    let t = s.push(p);
    let n = s.len() as int;
    assert(t[n] == p);
    assert forall|j: int| 0 <= j < n implies t[j] == s[j] by {}
    match b {
        Some(x) => {
            let i = choose|i: int| is_nearest_before(s, i) && s[i] == x;
            if p.relative_seconds <= 0 && x.relative_seconds <= p.relative_seconds {
                assert(is_nearest_before(t, n));
            } else {
                assert(is_nearest_before(t, i));
            }
        },
        None => {
            if p.relative_seconds <= 0 {
                assert(is_nearest_before(t, n));
            } else {
                assert forall|j: int| 0 <= j < t.len() implies #[trigger] t[j].relative_seconds
                    > 0 by {
                    if j < n {
                        assert(s[j].relative_seconds > 0);
                    }
                }
            }
        },
    }
}

/// Offering one more candidate keeps the later side as `tracks_after`
/// describes it.
pub proof fn lemma_after_step(s: Seq<Point>, p: Point, a: Option<Point>)
    requires
        tracks_after(s, a),
    ensures
        tracks_after(s.push(p), closer_after(a, p)),
{
    let t = s.push(p);
    let n = s.len() as int;
    assert(t[n] == p);
    assert forall|j: int| 0 <= j < n implies t[j] == s[j] by {}
    match a {
        Some(x) => {
            let i = choose|i: int| is_nearest_after(s, i) && s[i] == x;
            if p.relative_seconds >= 0 && p.relative_seconds <= x.relative_seconds {
                assert(is_nearest_after(t, n));
            } else {
                assert(is_nearest_after(t, i));
            }
        },
        None => {
            if p.relative_seconds >= 0 {
                assert(is_nearest_after(t, n));
            } else {
                assert forall|j: int| 0 <= j < t.len() implies #[trigger] t[j].relative_seconds
                    < 0 by {
                    if j < n {
                        assert(s[j].relative_seconds < 0);
                    }
                }
            }
        },
    }
}

/// Sides that track the candidates are the nearest ones that the bracket
/// selection names.
pub proof fn lemma_tracks_nearest(s: Seq<Point>, b: Option<Point>, a: Option<Point>)
    requires
        tracks_before(s, b),
        tracks_after(s, a),
    ensures
        nearest_before(s) == b,
        nearest_after(s) == a,
{
    match b {
        Some(x) => {
            let i = choose|i: int| is_nearest_before(s, i) && s[i] == x;
            let k = choose|k: int| is_nearest_before(s, k);
            assert(is_nearest_before(s, k));
            if k < i {
                assert(s[i].relative_seconds <= s[k].relative_seconds);
            } else if k > i {
                assert(s[k].relative_seconds <= s[i].relative_seconds);
            }
            assert(k == i);
        },
        None => {
            assert forall|k: int| !is_nearest_before(s, k) by {
                if 0 <= k < s.len() {
                    assert(s[k].relative_seconds > 0);
                }
            }
        },
    }
    match a {
        Some(x) => {
            let i = choose|i: int| is_nearest_after(s, i) && s[i] == x;
            let k = choose|k: int| is_nearest_after(s, k);
            assert(is_nearest_after(s, k));
            if k < i {
                assert(s[i].relative_seconds >= s[k].relative_seconds);
            } else if k > i {
                assert(s[k].relative_seconds >= s[i].relative_seconds);
            }
            assert(k == i);
        },
        None => {
            assert forall|k: int| !is_nearest_after(s, k) by {
                if 0 <= k < s.len() {
                    assert(s[k].relative_seconds < 0);
                }
            }
        },
    }
}

/// A pair of observations around the instant being looked up.
#[derive(Clone, Copy, Debug, PartialEq, Eq, Structural)]
pub struct Line {
    pub start: Point,
    pub end: Point,
}

impl Line {
    pub fn new(start: Point, end: Point) -> (r: Line)
        ensures
            r == (Line { start, end }),
    {
        Line { start, end }
    }
}

/// Collects the nearest observations on either side of the instant being
/// looked up, from candidates offered one at a time.
pub struct LineBuilder {
    start: Option<Point>,
    end: Option<Point>,
}

impl View for LineBuilder {
    type V = (Option<Point>, Option<Point>);

    closed spec fn view(&self) -> (Option<Point>, Option<Point>) {
        (self.start, self.end)
    }
}

impl LineBuilder {
    pub fn new() -> (r: LineBuilder)
        ensures
            r@ == (None::<Point>, None::<Point>),
    {
        LineBuilder { start: None, end: None }
    }

    /// Sets the earlier side, which lies at or before the query instant.
    pub fn start(&mut self, point: Point) -> (r: &mut Self)
        requires
            point.relative_seconds <= 0,
        ensures
            (*r)@ == (Some(point), old(self)@.1),
            *final(self) == *final(r),
    {
        self.start = Some(point);
        self
    }

    /// Sets the later side, which lies at or after the query instant.
    pub fn end(&mut self, point: Point) -> (r: &mut Self)
        requires
            point.relative_seconds >= 0,
        ensures
            (*r)@ == (old(self)@.0, Some(point)),
            *final(self) == *final(r),
    {
        self.end = Some(point);
        self
    }

    /// Offers one candidate: it takes each side on which it is at least as
    /// near to the query instant as the current one.
    pub fn add_point(&mut self, point: Point) -> (r: &mut Self)
        ensures
            (*r)@ == (closer_before(old(self)@.0, point), closer_after(old(self)@.1, point)),
            *final(self) == *final(r),
    {
        if point.relative_seconds <= 0 && match &self.start {
            None => true,
            Some(s) => s.relative_seconds <= point.relative_seconds,
        } {
            self.start = Some(point);
        }
        if point.relative_seconds >= 0 && match &self.end {
            None => true,
            Some(e) => point.relative_seconds <= e.relative_seconds,
        } {
            self.end = Some(point);
        }
        self
    }

    /// The bracket, when both sides are set.
    pub fn build(self) -> (r: Option<Line>)
        ensures
            r == (match self@ {
                (Some(start), Some(end)) => Some(Line { start, end }),
                _ => None,
            }),
    {
        match (self.start, self.end) {
            (Some(start), Some(end)) => Some(Line::new(start, end)),
            _ => None,
        }
    }
}

/// The value `progress = p / q` of the way from `a` to `b`, rounded down.
pub open spec fn lerp(a: int, b: int, p: int, q: int) -> int {
    a + (b - a) * p / q
}

/// The interpolated value lies between the two ends.
proof fn lemma_lerp_between(a: int, b: int, p: int, q: int)
    requires
        0 <= p <= q,
        q > 0,
    ensures
        a <= b ==> a <= lerp(a, b, p, q) <= b,
        b <= a ==> b <= lerp(a, b, p, q) <= a,
{
    let d = b - a;
    if d >= 0 {
        assert(0 <= d * p <= d * q) by (nonlinear_arith)
            requires
                d >= 0,
                0 <= p <= q,
        ;
        vstd::arithmetic::div_mod::lemma_div_is_ordered(0, d * p, q);
        vstd::arithmetic::div_mod::lemma_div_is_ordered(d * p, d * q, q);
        vstd::arithmetic::div_mod::lemma_div_multiples_vanish(d, q);
        assert(0int / q == 0);
        assert(d * q == q * d) by (nonlinear_arith);
    } else {
        assert(d * q <= d * p <= 0) by (nonlinear_arith)
            requires
                d < 0,
                0 <= p <= q,
        ;
        vstd::arithmetic::div_mod::lemma_div_is_ordered(d * q, d * p, q);
        vstd::arithmetic::div_mod::lemma_div_is_ordered(d * p, 0, q);
        vstd::arithmetic::div_mod::lemma_div_multiples_vanish(d, q);
        assert(0int / q == 0);
        assert(d * q == q * d) by (nonlinear_arith);
    }
}

/// `lerp(a, b, p, q)` for a progress of `p / q` with `0 <= p <= q`.
fn lerp_exec(a: i64, b: i64, p: i128, q: i128) -> (r: i64)
    requires
        0 <= p <= q,
        p <= 0x8000_0000_0000_0000,
        q > 0,
    ensures
        r == lerp(a as int, b as int, p as int, q as int),
{
    let d: i128 = b as i128 - a as i128;
    assert(-0xFFFF_FFFF_FFFF_FFFF * 0x8000_0000_0000_0000 <= d * p <= 0xFFFF_FFFF_FFFF_FFFF
        * 0x8000_0000_0000_0000) by (nonlinear_arith)
        requires
            -0xFFFF_FFFF_FFFF_FFFF <= d <= 0xFFFF_FFFF_FFFF_FFFF,
            0 <= p <= 0x8000_0000_0000_0000,
    ;
    let n: i128 = d * p;
    let step: i128 = if n >= 0 {
        n / q
    } else {
        let m: i128 = -n / q;
        let rem: i128 = -n % q;
        proof {
            vstd::arithmetic::div_mod::lemma_fundamental_div_mod(-n as int, q as int);
            assert(-n == q * m + rem);
            assert(n == (-m) * q - rem) by (nonlinear_arith)
                requires
                    -n == q * m + rem,
            ;
            assert(n == (-m - 1) * q + (q - rem)) by (nonlinear_arith)
                requires
                    n == (-m) * q - rem,
            ;
        }
        if rem == 0 {
            proof {
                vstd::arithmetic::div_mod::lemma_fundamental_div_mod_converse(
                    n as int,
                    q as int,
                    -m,
                    0,
                );
            }
            -m
        } else {
            proof {
                vstd::arithmetic::div_mod::lemma_fundamental_div_mod_converse(
                    n as int,
                    q as int,
                    -m - 1,
                    q - rem,
                );
            }
            -m - 1
        }
    };
    proof {
        lemma_lerp_between(a as int, b as int, p as int, q as int);
    }
    (a as i128 + step) as i64
}

/// The position at `query` on the line between the two sides of `line`:
/// where both sides share one offset, the earlier side's position itself.
/// The altitude is known only where both sides know theirs.
pub open spec fn interpolated(line: Line, query: Instant) -> Point {
    let s = line.start;
    let e = line.end;
    if s.relative_seconds == e.relative_seconds {
        Point {
            lat: s.lat,
            lng: s.lng,
            altitude: match (s.altitude, e.altitude) {
                (Some(x), Some(_)) => Some(x),
                _ => None,
            },
            timestamp: query,
            relative_seconds: 0,
        }
    } else {
        let p = -s.relative_seconds;
        let q = e.relative_seconds - s.relative_seconds;
        Point {
            lat: lerp(s.lat as int, e.lat as int, p, q) as i64,
            lng: lerp(s.lng as int, e.lng as int, p, q) as i64,
            altitude: match (s.altitude, e.altitude) {
                (Some(x), Some(y)) => Some(lerp(x as int, y as int, p, q) as i64),
                _ => None,
            },
            timestamp: query,
            relative_seconds: 0,
        }
    }
}

/// The result of the bounds-checked lookup on a given pair: the degenerate
/// pair answers at once; otherwise the query must lie within the pair's span
/// and the offsets must lie on both sides of it.
pub open spec fn point_on_line(line: Line, query: Instant) -> Result<Point, GeoError> {
    let s = line.start;
    let e = line.end;
    if s.relative_seconds == e.relative_seconds {
        Ok(interpolated(line, query))
    } else if query.total_nanos() < s.timestamp.total_nanos() || query.total_nanos()
        > e.timestamp.total_nanos() || !line.is_bracket() {
        Err(GeoError::OutOfBounds)
    } else {
        Ok(interpolated(line, query))
    }
}

impl Line {
    /// The earlier side's offset is not positive and the later side's not
    /// negative.
    pub open spec fn is_bracket(self) -> bool {
        self.start.relative_seconds <= 0 <= self.end.relative_seconds
    }

    /// The earlier side's position, at `query`, with its altitude where both
    /// sides have one.
    fn start_at(&self, query: &Instant) -> (r: Point)
        ensures
            self.start.relative_seconds == self.end.relative_seconds ==> r == interpolated(
                *self,
                *query,
            ),
    {
        let altitude = match (self.start.altitude, self.end.altitude) {
            (Some(x), Some(_)) => Some(x),
            _ => None,
        };
        Point {
            lat: self.start.lat,
            lng: self.start.lng,
            altitude,
            timestamp: *query,
            relative_seconds: 0,
        }
    }

    /// The position at `query` on a bracket that selection produced, or on a
    /// degenerate pair whose sides share one offset.
    pub fn interpolate(&self, query: &Instant) -> (r: Point)
        requires
            self.start.relative_seconds == self.end.relative_seconds || self.is_bracket(),
        ensures
            r == interpolated(*self, *query),
    {
        let s = &self.start;
        let e = &self.end;
        if s.relative_seconds == e.relative_seconds {
            return self.start_at(query);
        }
        let p: i128 = -(s.relative_seconds as i128);
        let q: i128 = e.relative_seconds as i128 - s.relative_seconds as i128;
        let lat = lerp_exec(s.lat, e.lat, p, q);
        let lng = lerp_exec(s.lng, e.lng, p, q);
        let altitude = match (s.altitude, e.altitude) {
            (Some(x), Some(y)) => Some(lerp_exec(x, y, p, q)),
            _ => None,
        };
        Point { lat, lng, altitude, timestamp: *query, relative_seconds: 0 }
    }

    /// The position at `timestamp`, refusing to extrapolate: `OutOfBounds`
    /// where `timestamp` lies outside the span of the pair, and also where the
    /// sides' offsets do not lie on both sides of zero, which happens only
    /// when the offsets disagree with the instants.
    pub fn get_point_at(&self, timestamp: &Instant) -> (r: Result<Point, GeoError>)
        requires
            timestamp.wf(),
            self.start.timestamp.wf(),
            self.end.timestamp.wf(),
        ensures
            r == point_on_line(*self, *timestamp),
    {
        if self.start.relative_seconds == self.end.relative_seconds {
            return Ok(self.start_at(timestamp));
        }
        if timestamp.is_before(&self.start.timestamp) || self.end.timestamp.is_before(timestamp)
            || !(self.start.relative_seconds <= 0 && 0 <= self.end.relative_seconds) {
            return Err(GeoError::OutOfBounds);
        }
        Ok(self.interpolate(timestamp))
    }
}

/// The candidates seen in order leave a bracket builder holding, on each
/// side, what `tracks_before` and `tracks_after` describe.
proof fn scan(s: Seq<Point>) -> (r: (Option<Point>, Option<Point>))
    ensures
        tracks_before(s, r.0),
        tracks_after(s, r.1),
    decreases s.len(),
{
    if s.len() == 0 {
        (None, None)
    } else {
        let p = s.drop_last();
        let (b, a) = scan(p);
        lemma_before_step(p, s.last(), b);
        lemma_after_step(p, s.last(), a);
        assert(p.push(s.last()) == s);
        (closer_before(b, s.last()), closer_after(a, s.last()))
    }
}

/// Bracket selection is correct: the earlier side exists exactly when some
/// candidate lies at or before the query instant, and it is a candidate whose
/// offset is the largest among those not after the query; the later side
/// exists exactly when some candidate lies at or after the query, and its
/// offset is the smallest among those not before it.
pub proof fn lemma_bracket_is_nearest(s: Seq<Point>)
    ensures
        nearest_before(s) is Some <==> exists|j: int|
            0 <= j < s.len() && #[trigger] s[j].relative_seconds <= 0,
        nearest_before(s) is Some ==> {
            let b = nearest_before(s)->0;
            &&& s.contains(b)
            &&& b.relative_seconds <= 0
            &&& forall|j: int|
                0 <= j < s.len() && #[trigger] s[j].relative_seconds <= 0 ==> s[j].relative_seconds
                    <= b.relative_seconds
        },
        nearest_after(s) is Some <==> exists|j: int|
            0 <= j < s.len() && #[trigger] s[j].relative_seconds >= 0,
        nearest_after(s) is Some ==> {
            let a = nearest_after(s)->0;
            &&& s.contains(a)
            &&& a.relative_seconds >= 0
            &&& forall|j: int|
                0 <= j < s.len() && #[trigger] s[j].relative_seconds >= 0 ==> s[j].relative_seconds
                    >= a.relative_seconds
        },
{
    let (b, a) = scan(s);
    lemma_tracks_nearest(s, b, a);
    if b is Some {
        let i = choose|i: int| is_nearest_before(s, i) && s[i] == b->0;
        assert(s[i].relative_seconds <= 0);
    }
    if a is Some {
        let i = choose|i: int| is_nearest_after(s, i) && s[i] == a->0;
        assert(s[i].relative_seconds >= 0);
    }
}

/// A candidate at the query instant itself makes the bracket degenerate: both
/// sides are one candidate at the query instant, and the position found is
/// exactly its own.
pub proof fn lemma_exact_match(s: Seq<Point>, query: Instant)
    requires
        exists|j: int| 0 <= j < s.len() && #[trigger] s[j].relative_seconds == 0,
    ensures
        bracket_of(s) is Some,
        bracket_of(s)->0.start == bracket_of(s)->0.end,
        bracket_of(s)->0.start.relative_seconds == 0,
        interpolated(bracket_of(s)->0, query).lat == bracket_of(s)->0.start.lat,
        interpolated(bracket_of(s)->0, query).lng == bracket_of(s)->0.start.lng,
        interpolated(bracket_of(s)->0, query).altitude == bracket_of(s)->0.start.altitude,
{
    let j = choose|j: int| 0 <= j < s.len() && #[trigger] s[j].relative_seconds == 0;
    lemma_bracket_is_nearest(s);
    assert(s[j].relative_seconds <= 0);
    assert(s[j].relative_seconds >= 0);
    let i = choose|i: int| is_nearest_before(s, i);
    let k = choose|k: int| is_nearest_after(s, k);
    assert(is_nearest_before(s, i));
    assert(is_nearest_after(s, k));
    assert(s[i].relative_seconds == 0);
    assert(s[k].relative_seconds == 0);
    if i < k {
        assert(s[k].relative_seconds <= 0);
    } else if k < i {
        assert(s[i].relative_seconds >= 0);
    }
}

/// Interpolation stays within its bracket: for a bracket whose sides have
/// different offsets, the progress `p / q` lies in `[0, 1]`, and latitude,
/// longitude and altitude each advance by that same progress from the earlier
/// side towards the later one (rounded down), never past either end.
pub proof fn lemma_interpolation_bounded(line: Line, query: Instant)
    requires
        line.is_bracket(),
        line.start.relative_seconds != line.end.relative_seconds,
    ensures
        ({
            let s = line.start;
            let e = line.end;
            let p = -s.relative_seconds;
            let q = e.relative_seconds - s.relative_seconds;
            let r = interpolated(line, query);
            &&& 0 <= p <= q
            &&& q > 0
            &&& r.lat == lerp(s.lat as int, e.lat as int, p, q)
            &&& r.lng == lerp(s.lng as int, e.lng as int, p, q)
            &&& (s.lat <= e.lat ==> s.lat <= r.lat <= e.lat)
            &&& (e.lat <= s.lat ==> e.lat <= r.lat <= s.lat)
            &&& (s.lng <= e.lng ==> s.lng <= r.lng <= e.lng)
            &&& (e.lng <= s.lng ==> e.lng <= r.lng <= s.lng)
            &&& (r.altitude is Some ==> {
                let x = s.altitude->0;
                let y = e.altitude->0;
                &&& r.altitude->0 == lerp(x as int, y as int, p, q)
                &&& (x <= y ==> x <= r.altitude->0 <= y)
                &&& (y <= x ==> y <= r.altitude->0 <= x)
            })
        }),
{
    let s = line.start;
    let e = line.end;
    let p = -s.relative_seconds;
    let q = e.relative_seconds - s.relative_seconds;
    lemma_lerp_between(s.lat as int, e.lat as int, p, q);
    lemma_lerp_between(s.lng as int, e.lng as int, p, q);
    if s.altitude is Some && e.altitude is Some {
        lemma_lerp_between(s.altitude->0 as int, e.altitude->0 as int, p, q);
    }
}

/// The altitude found is known exactly when both sides of the bracket know
/// theirs.
pub proof fn lemma_altitude_propagation(line: Line, query: Instant)
    ensures
        interpolated(line, query).altitude is Some <==> (line.start.altitude is Some
            && line.end.altitude is Some),
{
}

/// A degenerate bracket, whose sides share one offset, gives the earlier
/// side's coordinates exactly, with no division.
pub proof fn lemma_degenerate_bracket(line: Line, query: Instant)
    requires
        line.start.relative_seconds == line.end.relative_seconds,
    ensures
        interpolated(line, query).lat == line.start.lat,
        interpolated(line, query).lng == line.start.lng,
        interpolated(line, query).relative_seconds == 0,
        interpolated(line, query).timestamp == query,
{
}

} // verus!
