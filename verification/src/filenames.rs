//! Dates in file names, and the pairing of realtime files with schedules.
//!
//! File names embed a date as four digits, a dash, two digits, a dash and
//! two digits; the first such run decides. Realtime files are interpreted
//! against the newest schedule strictly older than their own date; files
//! whose name holds no readable date are quarantined, and files not newer
//! than the oldest schedule are skipped.

use vstd::prelude::*;
use crate::calendar::{Date, valid_date};
use crate::importer::{is_digit, digit_val};

verus! {

/// Why no date could be taken from a file name.
#[derive(Clone, Copy, Debug, PartialEq, Eq, Structural)]
pub enum FilenameError {
    /// No four-two-two digit run in the name.
    FilenameDateMissing,
    /// A digit run was found but its values form no calendar date.
    FilenameDateInvalid,
}

/// Whether a `dddd-dd-dd` run starts at position `i`.
pub open spec fn date_pattern_at(s: Seq<u8>, i: int) -> bool {
    &&& 0 <= i && i + 10 <= s.len()
    &&& is_digit(s[i]) && is_digit(s[i + 1]) && is_digit(s[i + 2]) && is_digit(s[i + 3])
    &&& s[i + 4] == 45u8
    &&& is_digit(s[i + 5]) && is_digit(s[i + 6])
    &&& s[i + 7] == 45u8
    &&& is_digit(s[i + 8]) && is_digit(s[i + 9])
}

/// The first position at or after `i` where a date run starts.
pub open spec fn first_date_pattern(s: Seq<u8>, i: int) -> Option<int>
    decreases s.len() - i,
{
    if i < 0 || i + 10 > s.len() {
        None
    } else if date_pattern_at(s, i) {
        Some(i)
    } else {
        first_date_pattern(s, i + 1)
    }
}

/// The date value written at position `i`.
pub open spec fn date_at(s: Seq<u8>, i: int) -> Date {
    Date {
        year: (digit_val(s[i]) * 1000 + digit_val(s[i + 1]) * 100 + digit_val(s[i + 2]) * 10
            + digit_val(s[i + 3])) as i32,
        month: (digit_val(s[i + 5]) * 10 + digit_val(s[i + 6])) as u8,
        day: (digit_val(s[i + 8]) * 10 + digit_val(s[i + 9])) as u8,
    }
}

/// The date a file name carries: the first date run, which must form a
/// valid calendar date.
pub open spec fn spec_date_from_filename(s: Seq<u8>) -> Result<Date, FilenameError> {
    match first_date_pattern(s, 0) {
        None => Err(FilenameError::FilenameDateMissing),
        Some(i) => if valid_date(date_at(s, i)) {
            Ok(date_at(s, i))
        } else {
            Err(FilenameError::FilenameDateInvalid)
        },
    }
}

/// Whether a date run starts at position `i` of the name.
fn pattern_at(s: &Vec<u8>, i: usize) -> (r: bool)
    requires
        i + 10 <= s@.len(),
    ensures
        r == date_pattern_at(s@, i as int),
{
    let n = s.len();
    proof {
        assert(i + 10 <= n);
    }
    48 <= s[i] && s[i] <= 57 && 48 <= s[i + 1] && s[i + 1] <= 57 && 48 <= s[i + 2]
        && s[i + 2] <= 57 && 48 <= s[i + 3] && s[i + 3] <= 57 && s[i + 4] == 45
        && 48 <= s[i + 5] && s[i + 5] <= 57 && 48 <= s[i + 6] && s[i + 6] <= 57
        && s[i + 7] == 45 && 48 <= s[i + 8] && s[i + 8] <= 57 && 48 <= s[i + 9]
        && s[i + 9] <= 57
}

/// Takes the date out of a file name: the first four-two-two digit run,
/// which must form a valid calendar date.
pub fn date_from_filename(filename: &Vec<u8>) -> (r: Result<Date, FilenameError>)
    ensures
        r == spec_date_from_filename(filename@),
{
    let n = filename.len();
    if n < 10 {
        return Err(FilenameError::FilenameDateMissing);
    }
    let mut i: usize = 0;
    while i <= n - 10
        invariant
            0 <= i,
            10 <= n,
            n == filename@.len(),
            i <= n - 10 + 1,
            first_date_pattern(filename@, 0) == first_date_pattern(filename@, i as int),
        decreases filename@.len() - i,
    {
        if pattern_at(filename, i) {
            let d = Date {
                year: (filename[i] - 48) as i32 * 1000 + (filename[i + 1] - 48) as i32 * 100
                    + (filename[i + 2] - 48) as i32 * 10 + (filename[i + 3] - 48) as i32,
                month: (filename[i + 5] - 48) * 10 + (filename[i + 6] - 48),
                day: (filename[i + 8] - 48) * 10 + (filename[i + 9] - 48),
            };
            if d.is_valid() {
                return Ok(d);
            } else {
                return Err(FilenameError::FilenameDateInvalid);
            }
        }
        i = i + 1;
    }
    Err(FilenameError::FilenameDateMissing)
}

/// Strict calendar order on dates.
pub open spec fn date_lt(a: Date, b: Date) -> bool {
    a.year < b.year || (a.year == b.year && (a.month < b.month || (a.month == b.month
        && a.day < b.day)))
}

/// Decides strict calendar order.
pub fn date_before(a: &Date, b: &Date) -> (r: bool)
    ensures
        r == date_lt(*a, *b),
{
    a.year < b.year || (a.year == b.year && (a.month < b.month || (a.month == b.month
        && a.day < b.day)))
}

/// How one realtime file is to be handled against the schedule list.
#[derive(Clone, Copy, Debug, PartialEq, Eq, Structural)]
pub enum RtDisposition {
    /// No readable date in the name: quarantine the file.
    BadDate,
    /// Not newer than the oldest schedule: leave it alone.
    TooOld,
    /// Import it against the schedule at this index.
    Group(usize),
}

/// The dates of the given schedule files, where their names hold one.
pub open spec fn sched_date(names: Seq<Vec<u8>>, j: int) -> Option<Date> {
    match spec_date_from_filename(names[j]@) {
        Ok(d) => Some(d),
        Err(_) => None,
    }
}

/// Decides how one realtime file is handled: files without a readable date
/// are quarantined; files not newer than the oldest schedule are skipped;
/// otherwise the chosen schedule is the last one in the (alphabetically
/// sorted, so oldest-first) list whose date is strictly older than the
/// file's - the newest schedule strictly older than the realtime data.
pub fn plan_rt_file(
    schedule_names: &Vec<Vec<u8>>,
    oldest_schedule_date: &Date,
    rt_name: &Vec<u8>,
) -> (r: RtDisposition)
    requires
        exists|k: int| 0 <= k < schedule_names@.len()
            && #[trigger] sched_date(schedule_names@, k) == Some(*oldest_schedule_date),
    ensures
        match r {
            RtDisposition::BadDate => spec_date_from_filename(rt_name@) is Err,
            RtDisposition::TooOld => ({
                let d = spec_date_from_filename(rt_name@)->Ok_0;
                &&& spec_date_from_filename(rt_name@) is Ok
                &&& !date_lt(*oldest_schedule_date, d)
            }),
            RtDisposition::Group(j) => ({
                let d = spec_date_from_filename(rt_name@)->Ok_0;
                &&& spec_date_from_filename(rt_name@) is Ok
                &&& date_lt(*oldest_schedule_date, d)
                &&& j < schedule_names@.len()
                &&& sched_date(schedule_names@, j as int) is Some
                &&& date_lt(sched_date(schedule_names@, j as int)->Some_0, d)
                &&& forall|k: int| j < k < schedule_names@.len()
                    ==> match #[trigger] sched_date(schedule_names@, k) {
                        Some(sk) => !date_lt(sk, d),
                        None => true,
                    }
            }),
        },
{
    let rt_date = match date_from_filename(rt_name) {
        Ok(d) => d,
        Err(_) => {
            return RtDisposition::BadDate;
        },
    };
    if !date_before(oldest_schedule_date, &rt_date) {
        return RtDisposition::TooOld;
    }
    let mut j = schedule_names.len();
    while j > 0
        invariant
            j <= schedule_names@.len(),
            spec_date_from_filename(rt_name@) == Ok::<Date, FilenameError>(rt_date),
            date_lt(*oldest_schedule_date, rt_date),
            forall|k: int| j <= k < schedule_names@.len()
                ==> match #[trigger] sched_date(schedule_names@, k) {
                    Some(sk) => !date_lt(sk, rt_date),
                    None => true,
                },
        decreases j,
    {
        j = j - 1;
        match date_from_filename(&schedule_names[j]) {
            Ok(sd) => {
                if date_before(&sd, &rt_date) {
                    return RtDisposition::Group(j);
                }
            },
            Err(_) => {},
        }
    }
    proof {
        let k = choose|k: int| 0 <= k < schedule_names@.len()
            && #[trigger] sched_date(schedule_names@, k) == Some(*oldest_schedule_date);
        assert(!date_lt(*oldest_schedule_date, rt_date));
        assert(false);
    }
    unreached()
}


/// Whether a `dddd-dd-ddTdd:dd:dd` run starts at position `i`.
pub open spec fn datetime_pattern_at(s: Seq<u8>, i: int) -> bool {
    &&& date_pattern_at(s, i)
    &&& i + 19 <= s.len()
    &&& s[i + 10] == 84u8
    &&& is_digit(s[i + 11]) && is_digit(s[i + 12])
    &&& s[i + 13] == 58u8
    &&& is_digit(s[i + 14]) && is_digit(s[i + 15])
    &&& s[i + 16] == 58u8
    &&& is_digit(s[i + 17]) && is_digit(s[i + 18])
}

/// The first position at or after `i` where a date-time run starts.
pub open spec fn first_datetime_pattern(s: Seq<u8>, i: int) -> Option<int>
    decreases s.len() - i,
{
    if i < 0 || i + 19 > s.len() {
        None
    } else if datetime_pattern_at(s, i) {
        Some(i)
    } else {
        first_datetime_pattern(s, i + 1)
    }
}

/// The seconds from midnight written at position `i + 11`.
pub open spec fn time_at(s: Seq<u8>, i: int) -> int {
    (digit_val(s[i + 11]) * 10 + digit_val(s[i + 12])) * 3600
        + (digit_val(s[i + 14]) * 10 + digit_val(s[i + 15])) * 60
        + digit_val(s[i + 17]) * 10 + digit_val(s[i + 18])
}

/// Whether the time digits at position `i + 11` form a valid time of day.
pub open spec fn time_at_valid(s: Seq<u8>, i: int) -> bool {
    &&& digit_val(s[i + 11]) * 10 + digit_val(s[i + 12]) < 24
    &&& digit_val(s[i + 14]) * 10 + digit_val(s[i + 15]) < 60
    &&& digit_val(s[i + 17]) * 10 + digit_val(s[i + 18]) < 60
}

/// The moment a file name carries: its first date-time run, which must
/// form a valid calendar date and time of day.
pub open spec fn spec_date_time_from_filename(s: Seq<u8>)
    -> Result<(Date, u32), FilenameError> {
    match first_datetime_pattern(s, 0) {
        None => Err(FilenameError::FilenameDateMissing),
        Some(i) => if valid_date(date_at(s, i)) && time_at_valid(s, i) {
            Ok((date_at(s, i), time_at(s, i) as u32))
        } else {
            Err(FilenameError::FilenameDateInvalid)
        },
    }
}

/// Whether a date-time run starts at position `i` of the name.
fn datetime_at(s: &Vec<u8>, i: usize) -> (r: bool)
    requires
        i + 19 <= s@.len(),
    ensures
        r == datetime_pattern_at(s@, i as int),
{
    let n = s.len();
    proof {
        assert(i + 19 <= n);
    }
    pattern_at(s, i) && s[i + 10] == 84 && 48 <= s[i + 11] && s[i + 11] <= 57
        && 48 <= s[i + 12] && s[i + 12] <= 57 && s[i + 13] == 58 && 48 <= s[i + 14]
        && s[i + 14] <= 57 && 48 <= s[i + 15] && s[i + 15] <= 57 && s[i + 16] == 58
        && 48 <= s[i + 17] && s[i + 17] <= 57 && 48 <= s[i + 18] && s[i + 18] <= 57
}

/// Takes the moment out of a file name: the first date-time run, which
/// must form a valid calendar date and time of day. The time is returned
/// as seconds from midnight.
pub fn date_time_from_filename(filename: &Vec<u8>) -> (r: Result<(Date, u32), FilenameError>)
    ensures
        r == spec_date_time_from_filename(filename@),
{
    let n = filename.len();
    if n < 19 {
        return Err(FilenameError::FilenameDateMissing);
    }
    let mut i: usize = 0;
    while i <= n - 19
        invariant
            0 <= i,
            19 <= n,
            n == filename@.len(),
            i <= n - 19 + 1,
            first_datetime_pattern(filename@, 0)
                == first_datetime_pattern(filename@, i as int),
        decreases filename@.len() - i,
    {
        if datetime_at(filename, i) {
            let d = Date {
                year: (filename[i] - 48) as i32 * 1000 + (filename[i + 1] - 48) as i32 * 100
                    + (filename[i + 2] - 48) as i32 * 10 + (filename[i + 3] - 48) as i32,
                month: (filename[i + 5] - 48) * 10 + (filename[i + 6] - 48),
                day: (filename[i + 8] - 48) * 10 + (filename[i + 9] - 48),
            };
            let h: u32 = (filename[i + 11] - 48) as u32 * 10 + (filename[i + 12] - 48) as u32;
            let m: u32 = (filename[i + 14] - 48) as u32 * 10 + (filename[i + 15] - 48) as u32;
            let sec: u32 = (filename[i + 17] - 48) as u32 * 10 + (filename[i + 18] - 48) as u32;
            if d.is_valid() && h < 24 && m < 60 && sec < 60 {
                return Ok((d, h * 3600 + m * 60 + sec));
            } else {
                return Err(FilenameError::FilenameDateInvalid);
            }
        }
        i = i + 1;
    }
    Err(FilenameError::FilenameDateMissing)
}

} // verus!
