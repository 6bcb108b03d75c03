use vstd::prelude::*;

use crate::autocomplete::lower_of;
use crate::coordinate::SCALE;

verus! {

/// Degrees, minutes and seconds of the angle `value` (in billionths of a
/// degree), sign aside: whole degrees, whole minutes, and the seconds left
/// over in billionths of a second.
pub open spec fn dms_of(value: int) -> (int, int, int) {
    let a = if value < 0 {
        -value
    } else {
        value
    };
    let f = a % (SCALE as int);
    (a / (SCALE as int), f * 60 / (SCALE as int), (f * 60) % (SCALE as int) * 60)
}

/// Splits an angle into degrees, minutes and seconds, as GPS metadata stores
/// it; the hemisphere is given apart, by `get_latitude_ref` or
/// `get_longitude_ref`.
pub fn decimal_to_dms(decimal: i64) -> (r: (u64, u32, u64))
    ensures
        (r.0 as int, r.1 as int, r.2 as int) == dms_of(decimal as int),
        r.1 < 60,
        r.2 < 60 * SCALE,
{
    let a: u64 = if decimal < 0 {
        (-(decimal as i128)) as u64
    } else {
        decimal as u64
    };
    let f: u64 = a % SCALE;
    let minutes: u64 = f * 60 / SCALE;
    let seconds: u64 = (f * 60) % SCALE * 60;
    assert(minutes < 60) by (nonlinear_arith)
        requires
            f < SCALE,
            minutes == f * 60 / SCALE as int,
            SCALE == 1_000_000_000,
    ;
    (a / SCALE, minutes as u32, seconds)
}

/// The hemisphere letter of a latitude: `N` unless it is negative.
pub fn get_latitude_ref(latitude: i64) -> (r: String)
    ensures
        r@ == (if latitude >= 0 {
            "N"@
        } else {
            "S"@
        }),
{
    if latitude >= 0 {
        String::from_str("N")
    } else {
        String::from_str("S")
    }
}

/// The hemisphere letter of a longitude: `E` unless it is negative.
pub fn get_longitude_ref(longitude: i64) -> (r: String)
    ensures
        r@ == (if longitude >= 0 {
            "E"@
        } else {
            "W"@
        }),
{
    if longitude >= 0 {
        String::from_str("E")
    } else {
        String::from_str("W")
    }
}

/// GPS altitude as metadata stores it: the distance from sea level, in
/// billionths of a metre, and `0` above sea level or `1` below.
pub fn altitude_parts(altitude: i64) -> (r: (u64, u8))
    ensures
        r.0 == (if altitude < 0 {
            -altitude
        } else {
            altitude as int
        }),
        r.1 == (if altitude >= 0 {
            0u8
        } else {
            1u8
        }),
{
    if altitude >= 0 {
        (altitude as u64, 0)
    } else {
        ((-(altitude as i128)) as u64, 1)
    }
}

/// The file extensions of photos that can be tagged, in lower case.
pub open spec fn is_photo_extension_text(lower: Seq<char>) -> bool {
    lower == "jpg"@ || lower == "jpeg"@ || lower == "png"@
}

/// Whether a file extension, letter case aside, names a photo that can be
/// tagged: `jpg`, `jpeg` or `png`.
pub fn is_photo_extension(extension: &str) -> (r: bool)
    ensures
        r == is_photo_extension_text(lower_of(extension@)),
{
    let lower = crate::autocomplete::lowercase(extension);
    is_lower_photo_extension(lower.as_str())
}

/// Whether a lower-case file extension is `jpg`, `jpeg` or `png`.
pub fn is_lower_photo_extension(lower: &str) -> (r: bool)
    ensures
        r == is_photo_extension_text(lower@),
{
    proof {
        reveal_strlit("jpg");
        reveal_strlit("jpeg");
        reveal_strlit("png");
    }
    let n = lower.unicode_len();
    if n == 3 {
        let a = lower.get_char(0);
        let b = lower.get_char(1);
        let c = lower.get_char(2);
        let r = (a == 'j' && b == 'p' && c == 'g') || (a == 'p' && b == 'n' && c == 'g');
        assert(r ==> (lower@ =~= "jpg"@ || lower@ =~= "png"@));
        r
    } else if n == 4 {
        let r = lower.get_char(0) == 'j' && lower.get_char(1) == 'p' && lower.get_char(2) == 'e'
            && lower.get_char(3) == 'g';
        assert(r ==> lower@ =~= "jpeg"@);
        r
    } else {
        false
    }
}

} // verus!
