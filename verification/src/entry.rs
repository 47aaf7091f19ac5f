//! Archive header and file-table records, with DOS timestamp rendering.

use vstd::prelude::*;
use vstd::string::StringExecFns;

verus! {

/// The fixed 8-byte archive header.
#[derive(Debug)]
pub struct QArchiveHeader {
    pub major_version: u8,
    pub minor_version: u8,
    pub num_files: u16,
    /// Window exponent; the sliding window holds `2^table_size` bytes.
    pub table_size: u8,
    pub comp_flags: u8,
}

/// One record of the file table, immutable once parsed.
#[derive(Debug)]
pub struct QFileEntry {
    pub name: String,
    pub comment: String,
    pub size: u32,
    pub time: u16,
    pub date: u16,
}

/// The decimal digit character for `d` in `0..=9`.
pub open spec fn digit_char(d: int) -> char {
    if d == 0 {
        '0'
    } else if d == 1 {
        '1'
    } else if d == 2 {
        '2'
    } else if d == 3 {
        '3'
    } else if d == 4 {
        '4'
    } else if d == 5 {
        '5'
    } else if d == 6 {
        '6'
    } else if d == 7 {
        '7'
    } else if d == 8 {
        '8'
    } else {
        '9'
    }
}

/// `n` rendered as exactly two decimal digits (zero padded).
pub open spec fn spec_two_digits(n: int) -> Seq<char> {
    seq![digit_char(n / 10), digit_char(n % 10)]
}

/// `n` rendered as exactly four decimal digits (zero padded).
pub open spec fn spec_four_digits(n: int) -> Seq<char> {
    seq![
        digit_char(n / 1000),
        digit_char((n / 100) % 10),
        digit_char((n / 10) % 10),
        digit_char(n % 10),
    ]
}

/// Day of month packed in the low five bits of a DOS date.
pub open spec fn spec_dos_day(date: u16) -> int {
    (date as int) % 32
}

/// Month packed in bits 5 to 8 of a DOS date.
pub open spec fn spec_dos_month(date: u16) -> int {
    ((date as int) / 32) % 16
}

/// Year packed in the high seven bits of a DOS date, based at 1980.
pub open spec fn spec_dos_year(date: u16) -> int {
    ((date as int) / 512) % 128 + 1980
}

/// Seconds (stored halved) in the low five bits of a DOS time.
pub open spec fn spec_dos_second(time: u16) -> int {
    ((time as int) % 32) * 2
}

/// Minutes in bits 5 to 10 of a DOS time.
pub open spec fn spec_dos_minute(time: u16) -> int {
    ((time as int) / 32) % 64
}

/// Hours in the high five bits of a DOS time.
pub open spec fn spec_dos_hour(time: u16) -> int {
    ((time as int) / 2048) % 32
}

/// A one-character string for the digit `d`.
fn digit_str(d: u16) -> (r: &'static str)
    requires
        d <= 9,
    ensures
        r@ =~= seq![digit_char(d as int)],
{
    let s: &'static str = match d {
        0 => "0",
        1 => "1",
        2 => "2",
        3 => "3",
        4 => "4",
        5 => "5",
        6 => "6",
        7 => "7",
        8 => "8",
        _ => "9",
    };
    proof {
        reveal_strlit("0");
        reveal_strlit("1");
        reveal_strlit("2");
        reveal_strlit("3");
        reveal_strlit("4");
        reveal_strlit("5");
        reveal_strlit("6");
        reveal_strlit("7");
        reveal_strlit("8");
        reveal_strlit("9");
    }
    s
}

/// Append `n` as two zero-padded decimal digits.
fn push_two_digits(s: &mut String, n: u16)
    requires
        n <= 99,
    ensures
        final(s)@ == old(s)@ + spec_two_digits(n as int),
{
    s.append(digit_str(n / 10));
    s.append(digit_str(n % 10));
    proof {
        assert(final(s)@ =~= old(s)@ + spec_two_digits(n as int));
    }
}

/// Append `n` as four zero-padded decimal digits.
fn push_four_digits(s: &mut String, n: u16)
    requires
        n <= 9999,
    ensures
        final(s)@ == old(s)@ + spec_four_digits(n as int),
{
    s.append(digit_str(n / 1000));
    s.append(digit_str((n / 100) % 10));
    s.append(digit_str((n / 10) % 10));
    s.append(digit_str(n % 10));
    proof {
        assert(final(s)@ =~= old(s)@ + spec_four_digits(n as int));
    }
}

impl QFileEntry {
    /// The DOS date as `DD-MM-YYYY`.
    pub fn date_string(&self) -> (r: String)
        ensures
            r@ == spec_two_digits(spec_dos_day(self.date)) + seq!['-'] + spec_two_digits(
                spec_dos_month(self.date),
            ) + seq!['-'] + spec_four_digits(spec_dos_year(self.date)),
    {
        let day: u16 = self.date % 32;
        let month: u16 = (self.date / 32) % 16;
        let year: u16 = (self.date / 512) % 128 + 1980;
        let mut s = String::new();
        push_two_digits(&mut s, day);
        s.append("-");
        push_two_digits(&mut s, month);
        s.append("-");
        push_four_digits(&mut s, year);
        proof {
            reveal_strlit("-");
            assert(s@ =~= spec_two_digits(spec_dos_day(self.date)) + seq!['-']
                + spec_two_digits(spec_dos_month(self.date)) + seq!['-'] + spec_four_digits(
                spec_dos_year(self.date),
            ));
        }
        s
    }

    /// The DOS time as `HH:MM:SS`.
    pub fn time_string(&self) -> (r: String)
        ensures
            r@ == spec_two_digits(spec_dos_hour(self.time)) + seq![':'] + spec_two_digits(
                spec_dos_minute(self.time),
            ) + seq![':'] + spec_two_digits(spec_dos_second(self.time)),
    {
        let seconds: u16 = (self.time % 32) * 2;
        let minutes: u16 = (self.time / 32) % 64;
        let hours: u16 = (self.time / 2048) % 32;
        let mut s = String::new();
        push_two_digits(&mut s, hours);
        s.append(":");
        push_two_digits(&mut s, minutes);
        s.append(":");
        push_two_digits(&mut s, seconds);
        proof {
            reveal_strlit(":");
            assert(s@ =~= spec_two_digits(spec_dos_hour(self.time)) + seq![':']
                + spec_two_digits(spec_dos_minute(self.time)) + seq![':'] + spec_two_digits(
                spec_dos_second(self.time),
            ));
        }
        s
    }
}

} // verus!
