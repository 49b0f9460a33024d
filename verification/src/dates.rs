//! Local-date conversion (through chrono) and verified date formatting.

use vstd::prelude::*;

use crate::text::string_from_chars;

verus! {

/// The decimal digit character for a value below ten.
pub open spec fn digit_char(d: int) -> char {
    (('0' as int) + d) as char
}

/// The decimal digits of a number, most significant first.
pub open spec fn dec_digits(n: int) -> Seq<char>
    decreases n,
{
    if n < 10 {
        seq![digit_char(if n < 0 { 0 } else { n })]
    } else {
        dec_digits(n / 10).push(digit_char(n % 10))
    }
}

/// `s` left-padded with zeros to width `w`.
pub open spec fn zero_pad(s: Seq<char>, w: int) -> Seq<char> {
    if s.len() >= w {
        s
    } else {
        Seq::new((w - s.len()) as nat, |i: int| '0') + s
    }
}

fn digit_of(d: u64) -> (c: char)
    requires
        d < 10,
    ensures
        c == digit_char(d as int),
{
    match d {
        0 => '0',
        1 => '1',
        2 => '2',
        3 => '3',
        4 => '4',
        5 => '5',
        6 => '6',
        7 => '7',
        8 => '8',
        _ => '9',
    }
}

/// The decimal digits of `n`.
pub fn to_decimal(n: u64) -> (r: Vec<char>)
    ensures
        r@ == dec_digits(n as int),
    decreases n,
{
    if n < 10 {
        let mut v: Vec<char> = Vec::new();
        v.push(digit_of(n));
        proof {
            assert(v@ =~= seq![digit_char(n as int)]);
        }
        v
    } else {
        let mut v = to_decimal(n / 10);
        v.push(digit_of(n % 10));
        v
    }
}

/// The decimal digits of `n`, zero-padded to width `w`.
pub fn to_decimal_padded(n: u64, w: usize) -> (r: Vec<char>)
    requires
        w <= 8,
    ensures
        r@ == zero_pad(dec_digits(n as int), w as int),
{
    let digits = to_decimal(n);
    let mut r: Vec<char> = Vec::new();
    let mut pad: usize = 0;
    let needed: usize = if digits.len() < w {
        w - digits.len()
    } else {
        0
    };
    while pad < needed
        invariant
            pad <= needed,
            r@ == Seq::new(pad as nat, |i: int| '0'),
        decreases needed - pad,
    {
        r.push('0');
        pad = pad + 1;
        proof {
            assert(r@ =~= Seq::new(pad as nat, |i: int| '0'));
        }
    }
    let mut tail = digits;
    r.append(&mut tail);
    proof {
        if dec_digits(n as int).len() >= w {
            assert(r@ =~= dec_digits(n as int));
        } else {
            assert(r@ =~= Seq::new(
                (w - dec_digits(n as int).len()) as nat,
                |i: int| '0',
            ) + dec_digits(n as int));
        }
    }
    r
}

/// The three-letter month abbreviation.
pub open spec fn month_abbr(m: u8) -> Seq<char> {
    if m == 1 {
        "Jan"@
    } else if m == 2 {
        "Feb"@
    } else if m == 3 {
        "Mar"@
    } else if m == 4 {
        "Apr"@
    } else if m == 5 {
        "May"@
    } else if m == 6 {
        "Jun"@
    } else if m == 7 {
        "Jul"@
    } else if m == 8 {
        "Aug"@
    } else if m == 9 {
        "Sep"@
    } else if m == 10 {
        "Oct"@
    } else if m == 11 {
        "Nov"@
    } else {
        "Dec"@
    }
}

fn month_abbr_str(m: u8) -> (r: &'static str)
    ensures
        r@ == month_abbr(m),
{
    if m == 1 {
        "Jan"
    } else if m == 2 {
        "Feb"
    } else if m == 3 {
        "Mar"
    } else if m == 4 {
        "Apr"
    } else if m == 5 {
        "May"
    } else if m == 6 {
        "Jun"
    } else if m == 7 {
        "Jul"
    } else if m == 8 {
        "Aug"
    } else if m == 9 {
        "Sep"
    } else if m == 10 {
        "Oct"
    } else if m == 11 {
        "Nov"
    } else {
        "Dec"
    }
}

/// The display form of a modification date: month abbreviation and
/// zero-padded day.
pub open spec fn month_day_string(m: u8, d: u8) -> Seq<char> {
    month_abbr(m) + seq![' '] + zero_pad(dec_digits(d as int), 2)
}

/// Format a month and day for display.
pub fn format_month_day(m: u8, d: u8) -> (r: String)
    ensures
        r@ == month_day_string(m, d),
{
    let mon = month_abbr_str(m);
    let day = to_decimal_padded(d as u64, 2);
    let day_str = string_from_chars(&day);
    let out = String::from_str(mon).concat(" ").concat(day_str.as_str());
    proof {
        reveal_strlit(" ");
        assert(" "@ =~= seq![' ']);
        assert(out@ =~= month_day_string(m, d));
    }
    out
}

/// The `year-month-day` name prefix of a created note, zero-padded.
pub open spec fn ymd_string(y: i64, m: u8, d: u8) -> Seq<char> {
    let year = if y < 0 {
        seq!['-'] + zero_pad(dec_digits(-y as int), 4)
    } else {
        zero_pad(dec_digits(y as int), 4)
    };
    year + seq!['-'] + zero_pad(dec_digits(m as int), 2) + seq!['-'] + zero_pad(
        dec_digits(d as int),
        2,
    )
}

/// Format a date as `year-month-day`.
pub fn format_ymd(y: i64, m: u8, d: u8) -> (r: Vec<char>)
    requires
        -1000000 <= y <= 1000000,
    ensures
        r@ == ymd_string(y, m, d),
{
    let mut r: Vec<char> = Vec::new();
    if y < 0 {
        r.push('-');
        let mut year = to_decimal_padded((-y) as u64, 4);
        r.append(&mut year);
        proof {
            assert(r@ =~= seq!['-'] + zero_pad(dec_digits(-y as int), 4));
        }
    } else {
        let mut year = to_decimal_padded(y as u64, 4);
        r.append(&mut year);
    }
    r.push('-');
    let mut mon = to_decimal_padded(m as u64, 2);
    r.append(&mut mon);
    r.push('-');
    let mut day = to_decimal_padded(d as u64, 2);
    r.append(&mut day);
    proof {
        assert(r@ =~= ymd_string(y, m, d));
    }
    r
}

/// Relies on chrono: `DateTime::from_timestamp`, `with_timezone(&Local)` and
/// the `Datelike` accessors. Converts an epoch second count to the calendar
/// date in the machine's local time zone; `None` only for out-of-range
/// seconds. The month and day accessors are documented to stay in range,
/// and chrono's years stay within about plus or minus 262000. The result
/// depends on the machine's time zone, so nothing more can be promised.
#[verifier::external_body]
pub(crate) fn local_ymd_call(secs: i64) -> (r: Option<(i64, u8, u8)>)
    ensures
        r matches Some(t) ==> {
            &&& -1000000 <= t.0 <= 1000000
            &&& 1 <= t.1 <= 12
            &&& 1 <= t.2 <= 31
        },
{
    match chrono::DateTime::from_timestamp(secs, 0) {
        Some(utc) => {
            let l = utc.with_timezone(&chrono::Local);
            Some((
                chrono::Datelike::year(&l) as i64,
                chrono::Datelike::month(&l) as u8,
                chrono::Datelike::day(&l) as u8,
            ))
        },
        None => None,
    }
}

/// Relies on chrono's `Local::now` and the `Datelike` accessors: the current
/// calendar date in the local time zone. The result depends on the clock
/// and the time zone, so only the documented ranges can be promised.
#[verifier::external_body]
pub(crate) fn local_today_call() -> (r: (i64, u8, u8))
    ensures
        -1000000 <= r.0 <= 1000000,
        1 <= r.1 <= 12,
        1 <= r.2 <= 31,
{
    let now = chrono::Local::now();
    (
        chrono::Datelike::year(&now) as i64,
        chrono::Datelike::month(&now) as u8,
        chrono::Datelike::day(&now) as u8,
    )
}

/// The display date of a modification timestamp: `month_day_string` of the
/// local calendar date, or `"Unknown"` for out-of-range seconds. Which date
/// a second count falls on depends on the machine's time zone.
pub fn format_date(secs: i64) -> (r: String)
    ensures
        (exists|m: u8, d: u8|
            1 <= m <= 12 && 1 <= d <= 31 && r@ == #[trigger] month_day_string(m, d)) || r@
            == "Unknown"@,
{
    match local_ymd_call(secs) {
        Some(t) => {
            let (_, m, d) = t;
            format_month_day(m, d)
        },
        None => String::from_str("Unknown"),
    }
}

} // verus!
