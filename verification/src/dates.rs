//! The shared date parser: a raw `Publish Date` header value is matched
//! against four recognized text forms, in a fixed priority order, and the
//! first match yields a calendar date.  The parsed date stands for an
//! instant at 12:00:00 at UTC offset zero on that day; it orders the post
//! list and is projected into the feed entry's publication timestamp.

use vstd::prelude::*;

verus! {

use vstd::string::StrSliceExecFns;
use crate::text::{lower_seq, lower_char, to_lower};

/// A calendar date as mathematics sees it.
#[verifier::ext_equal]
pub ghost struct DateVal {
    pub year: int,
    pub month: int,
    pub day: int,
}

/// A parsed calendar date, fixed at noon UTC for all timestamp purposes.
#[derive(Debug, Clone, Copy, PartialEq, Eq, Structural)]
pub struct CalendarDate {
    pub year: u16,
    pub month: u8,
    pub day: u8,
}

impl View for CalendarDate {
    type V = DateVal;

    open spec fn view(&self) -> DateVal {
        DateVal { year: self.year as int, month: self.month as int, day: self.day as int }
    }
}

/// The one way date parsing fails: no recognized form matches.
#[derive(Debug, Clone, Copy, PartialEq, Eq, Structural)]
pub enum DateError {
    UnparseableDate,
}

pub open spec fn leap_year(y: int) -> bool {
    y % 4 == 0 && (y % 100 != 0 || y % 400 == 0)
}

pub open spec fn days_in_month(y: int, m: int) -> int {
    if m == 2 {
        if leap_year(y) { 29 } else { 28 }
    } else if m == 4 || m == 6 || m == 9 || m == 11 {
        30
    } else {
        31
    }
}

/// The dates the four text forms can denote: a four-digit year and a real
/// day of a real month.
pub open spec fn valid_date(y: int, m: int, d: int) -> bool {
    0 <= y <= 9999 && 1 <= m <= 12 && 1 <= d <= days_in_month(y, m)
}

impl CalendarDate {
    pub open spec fn wf(&self) -> bool {
        valid_date(self.year as int, self.month as int, self.day as int)
    }
}

pub open spec fn is_digit(c: char) -> bool {
    '0' <= c && c <= '9'
}

pub open spec fn digit_val(c: char) -> int {
    c as u32 - 48
}

/// The first index at or after `i` holding a non-digit, or `s.len()`.
pub open spec fn digits_end(s: Seq<char>, i: int) -> int
    decreases s.len() - i,
{
    if i >= s.len() {
        s.len() as int
    } else if !is_digit(s[i]) {
        i
    } else {
        digits_end(s, i + 1)
    }
}

pub proof fn lemma_digits_end(s: Seq<char>, i: int)
    requires
        0 <= i <= s.len(),
    ensures
        i <= digits_end(s, i) <= s.len(),
        forall|j: int| i <= j < digits_end(s, i) ==> is_digit(s[j]),
        digits_end(s, i) < s.len() ==> !is_digit(s[digits_end(s, i)]),
    decreases s.len() - i,
{
    if i < s.len() && is_digit(s[i]) {
        lemma_digits_end(s, i + 1);
    }
}

/// The number denoted by the digits of `s` between `i` and `j`.
pub open spec fn num_val(s: Seq<char>, i: int, j: int) -> int
    decreases j - i,
{
    if j <= i {
        0
    } else {
        num_val(s, i, j - 1) * 10 + digit_val(s[j - 1])
    }
}

/// Runtime test for [`is_digit`].
fn is_digit_exec(c: char) -> (r: bool)
    ensures
        r == is_digit(c),
{
    '0' <= c && c <= '9'
}

/// Runtime counterpart of [`digits_end`].
fn digits_end_exec(s: &str, i: usize) -> (r: usize)
    requires
        i <= s@.len(),
    ensures
        r == digits_end(s@, i as int),
        i <= r <= s@.len(),
        forall|j: int| i <= j < r ==> is_digit(s@[j]),
{
    let n = s.unicode_len();
    let mut k: usize = i;
    while k < n && is_digit_exec(s.get_char(k))
        invariant
            i <= k <= n == s@.len(),
            digits_end(s@, i as int) == digits_end(s@, k as int),
        decreases n - k,
    {
        k = k + 1;
    }
    proof {
        lemma_digits_end(s@, i as int);
    }
    k
}

/// Reads the number denoted by the digits of `s` between `i` and `j`;
/// at most four digits, so the result stays below 10000.
fn read_num(s: &str, i: usize, j: usize) -> (r: u32)
    requires
        i <= j <= s@.len(),
        j - i <= 4,
        forall|k: int| i <= k < j ==> is_digit(s@[k]),
    ensures
        r == num_val(s@, i as int, j as int),
        r <= 9999,
        j - i <= 2 ==> r <= 99,
{
    let mut v: u32 = 0;
    let mut k: usize = i;
    while k < j
        invariant
            i <= k <= j <= s@.len(),
            j - i <= 4,
            forall|q: int| i <= q < j ==> is_digit(s@[q]),
            v == num_val(s@, i as int, k as int),
            v < (if k - i == 0 { 1int } else if k - i == 1 { 10int }
                 else if k - i == 2 { 100int } else if k - i == 3 { 1000int }
                 else { 10000int }),
        decreases j - k,
    {
        let c = s.get_char(k);
        assert(is_digit(s@[k as int]));
        let d: u32 = c as u32 - 48;
        v = v * 10 + d;
        k = k + 1;
    }
    v
}

/// The lower-case name of month `m`.
pub open spec fn month_name(m: int) -> Seq<char> {
    if m == 1 { "january"@ }
    else if m == 2 { "february"@ }
    else if m == 3 { "march"@ }
    else if m == 4 { "april"@ }
    else if m == 5 { "may"@ }
    else if m == 6 { "june"@ }
    else if m == 7 { "july"@ }
    else if m == 8 { "august"@ }
    else if m == 9 { "september"@ }
    else if m == 10 { "october"@ }
    else if m == 11 { "november"@ }
    else { "december"@ }
}

/// Whether `pat` occurs in `s` at index `i`, ignoring ASCII case.
pub open spec fn matches_lower_at(s: Seq<char>, i: int, pat: Seq<char>) -> bool {
    0 <= i && i + pat.len() <= s.len()
        && lower_seq(s.subrange(i, i + pat.len())) == lower_seq(pat)
}

/// The month whose English name occurs in `s` at index `i`, ignoring case,
/// with the name's length; months are tried in calendar order.
pub open spec fn month_at(s: Seq<char>, i: int) -> Option<(int, int)> {
    if matches_lower_at(s, i, month_name(1)) { Some((1int, month_name(1).len() as int)) }
    else if matches_lower_at(s, i, month_name(2)) { Some((2int, month_name(2).len() as int)) }
    else if matches_lower_at(s, i, month_name(3)) { Some((3int, month_name(3).len() as int)) }
    else if matches_lower_at(s, i, month_name(4)) { Some((4int, month_name(4).len() as int)) }
    else if matches_lower_at(s, i, month_name(5)) { Some((5int, month_name(5).len() as int)) }
    else if matches_lower_at(s, i, month_name(6)) { Some((6int, month_name(6).len() as int)) }
    else if matches_lower_at(s, i, month_name(7)) { Some((7int, month_name(7).len() as int)) }
    else if matches_lower_at(s, i, month_name(8)) { Some((8int, month_name(8).len() as int)) }
    else if matches_lower_at(s, i, month_name(9)) { Some((9int, month_name(9).len() as int)) }
    else if matches_lower_at(s, i, month_name(10)) { Some((10int, month_name(10).len() as int)) }
    else if matches_lower_at(s, i, month_name(11)) { Some((11int, month_name(11).len() as int)) }
    else if matches_lower_at(s, i, month_name(12)) { Some((12int, month_name(12).len() as int)) }
    else { None }
}

/// Whether `pat` occurs in `s` at `i` ignoring case; on success returns
/// the pattern's length.
fn try_name(s: &str, i: usize, pat: &str) -> (r: Option<usize>)
    requires
        i <= s@.len(),
    ensures
        match r {
            Some(ml) => ml == pat@.len() && matches_lower_at(s@, i as int, pat@),
            None => !matches_lower_at(s@, i as int, pat@),
        },
{
    let n = pat.unicode_len();
    let sn = s.unicode_len();
    if n > sn - i {
        return None;
    }
    if crate::text::eq_ignore_case(s, i, i + n, pat) {
        Some(n)
    } else {
        None
    }
}

/// Runtime counterpart of [`month_at`].
fn month_at_exec(s: &str, i: usize) -> (r: Option<(u8, usize)>)
    requires
        i <= s@.len(),
    ensures
        match r {
            Some((m, ml)) => {
                &&& month_at(s@, i as int) == Some((m as int, ml as int))
                &&& 1 <= m <= 12
                &&& i + ml <= s@.len()
            },
            None => month_at(s@, i as int) is None,
        },
{
    if let Some(ml) = try_name(s, i, "january") { return Some((1, ml)); }
    if let Some(ml) = try_name(s, i, "february") { return Some((2, ml)); }
    if let Some(ml) = try_name(s, i, "march") { return Some((3, ml)); }
    if let Some(ml) = try_name(s, i, "april") { return Some((4, ml)); }
    if let Some(ml) = try_name(s, i, "may") { return Some((5, ml)); }
    if let Some(ml) = try_name(s, i, "june") { return Some((6, ml)); }
    if let Some(ml) = try_name(s, i, "july") { return Some((7, ml)); }
    if let Some(ml) = try_name(s, i, "august") { return Some((8, ml)); }
    if let Some(ml) = try_name(s, i, "september") { return Some((9, ml)); }
    if let Some(ml) = try_name(s, i, "october") { return Some((10, ml)); }
    if let Some(ml) = try_name(s, i, "november") { return Some((11, ml)); }
    if let Some(ml) = try_name(s, i, "december") { return Some((12, ml)); }
    None
}

/// Form 1, day month-name year: `03 July 2025`.
pub open spec fn parse_dmy(s: Seq<char>) -> Option<DateVal> {
    let de = digits_end(s, 0);
    if de < 1 || de > 2 {
        None
    } else if de >= s.len() || s[de] != ' ' {
        None
    } else {
        match month_at(s, de + 1) {
            None => None,
            Some((m, ml)) => {
                let ys = de + 1 + ml;
                if ys >= s.len() || s[ys] != ' ' {
                    None
                } else {
                    let ye = digits_end(s, ys + 1);
                    if ye != s.len() || ye - (ys + 1) != 4 {
                        None
                    } else {
                        let d = num_val(s, 0, de);
                        let y = num_val(s, ys + 1, ye);
                        if valid_date(y, m, d) {
                            Some(DateVal { year: y, month: m, day: d })
                        } else {
                            None
                        }
                    }
                }
            },
        }
    }
}

/// Form 2, month-name day, year: `July 03, 2025`.
pub open spec fn parse_month_first(s: Seq<char>) -> Option<DateVal> {
    match month_at(s, 0) {
        None => None,
        Some((m, ml)) => {
            if ml >= s.len() || s[ml] != ' ' {
                None
            } else {
                let de = digits_end(s, ml + 1);
                if de - (ml + 1) < 1 || de - (ml + 1) > 2 {
                    None
                } else if de + 2 > s.len() || s[de] != ',' || s[de + 1] != ' ' {
                    None
                } else {
                    let ye = digits_end(s, de + 2);
                    if ye != s.len() || ye - (de + 2) != 4 {
                        None
                    } else {
                        let d = num_val(s, ml + 1, de);
                        let y = num_val(s, de + 2, ye);
                        if valid_date(y, m, d) {
                            Some(DateVal { year: y, month: m, day: d })
                        } else {
                            None
                        }
                    }
                }
            }
        },
    }
}

/// Form 3, ISO calendar date: `2025-07-03`.
pub open spec fn parse_iso(s: Seq<char>) -> Option<DateVal> {
    let ye = digits_end(s, 0);
    if ye != 4 {
        None
    } else if 4 >= s.len() || s[4] != '-' {
        None
    } else {
        let me = digits_end(s, 5);
        if me - 5 < 1 || me - 5 > 2 {
            None
        } else if me >= s.len() || s[me] != '-' {
            None
        } else {
            let de = digits_end(s, me + 1);
            if de != s.len() || de - (me + 1) < 1 || de - (me + 1) > 2 {
                None
            } else {
                let y = num_val(s, 0, 4);
                let m = num_val(s, 5, me);
                let d = num_val(s, me + 1, de);
                if valid_date(y, m, d) {
                    Some(DateVal { year: y, month: m, day: d })
                } else {
                    None
                }
            }
        }
    }
}

/// Form 4, month/day/year: `07/03/2025`.
pub open spec fn parse_slash(s: Seq<char>) -> Option<DateVal> {
    let me = digits_end(s, 0);
    if me < 1 || me > 2 {
        None
    } else if me >= s.len() || s[me] != '/' {
        None
    } else {
        let de = digits_end(s, me + 1);
        if de - (me + 1) < 1 || de - (me + 1) > 2 {
            None
        } else if de >= s.len() || s[de] != '/' {
            None
        } else {
            let ye = digits_end(s, de + 1);
            if ye != s.len() || ye - (de + 1) != 4 {
                None
            } else {
                let m = num_val(s, 0, me);
                let d = num_val(s, me + 1, de);
                let y = num_val(s, de + 1, ye);
                if valid_date(y, m, d) {
                    Some(DateVal { year: y, month: m, day: d })
                } else {
                    None
                }
            }
        }
    }
}

/// The date parser's whole behaviour: the four forms are tried in order
/// and the first successful parse wins.
pub open spec fn parse_date_spec(s: Seq<char>) -> Option<DateVal> {
    if parse_dmy(s) is Some { parse_dmy(s) }
    else if parse_month_first(s) is Some { parse_month_first(s) }
    else if parse_iso(s) is Some { parse_iso(s) }
    else { parse_slash(s) }
}

fn check_date(y: u32, m: u8, d: u32) -> (r: bool)
    ensures
        r == valid_date(y as int, m as int, d as int),
{
    if y > 9999 || m < 1 || m > 12 || d < 1 {
        return false;
    }
    let dim: u32 = if m == 2 {
        if y % 4 == 0 && (y % 100 != 0 || y % 400 == 0) { 29 } else { 28 }
    } else if m == 4 || m == 6 || m == 9 || m == 11 {
        30
    } else {
        31
    };
    d <= dim
}

fn try_dmy(s: &str) -> (r: Option<CalendarDate>)
    ensures
        match r {
            Some(d) => parse_dmy(s@) == Some(d@) && d.wf(),
            None => parse_dmy(s@) is None,
        },
{
    let n = s.unicode_len();
    let de = digits_end_exec(s, 0);
    if de < 1 || de > 2 {
        return None;
    }
    if de >= n || s.get_char(de) != ' ' {
        return None;
    }
    match month_at_exec(s, de + 1) {
        None => None,
        Some((m, ml)) => {
            let ys = de + 1 + ml;
            if ys >= n || s.get_char(ys) != ' ' {
                return None;
            }
            let ye = digits_end_exec(s, ys + 1);
            if ye != n || ye - (ys + 1) != 4 {
                return None;
            }
            let d = read_num(s, 0, de);
            let y = read_num(s, ys + 1, ye);
            if check_date(y, m, d) {
                Some(CalendarDate { year: y as u16, month: m, day: d as u8 })
            } else {
                None
            }
        },
    }
}

fn try_month_first(s: &str) -> (r: Option<CalendarDate>)
    ensures
        match r {
            Some(d) => parse_month_first(s@) == Some(d@) && d.wf(),
            None => parse_month_first(s@) is None,
        },
{
    let n = s.unicode_len();
    match month_at_exec(s, 0) {
        None => None,
        Some((m, ml)) => {
            if ml >= n || s.get_char(ml) != ' ' {
                return None;
            }
            let de = digits_end_exec(s, ml + 1);
            if de - (ml + 1) < 1 || de - (ml + 1) > 2 {
                return None;
            }
            if de >= n || de + 1 >= n || s.get_char(de) != ',' || s.get_char(de + 1) != ' ' {
                return None;
            }
            let ye = digits_end_exec(s, de + 2);
            if ye != n || ye - (de + 2) != 4 {
                return None;
            }
            let d = read_num(s, ml + 1, de);
            let y = read_num(s, de + 2, ye);
            if check_date(y, m, d) {
                Some(CalendarDate { year: y as u16, month: m, day: d as u8 })
            } else {
                None
            }
        },
    }
}

fn try_iso(s: &str) -> (r: Option<CalendarDate>)
    ensures
        match r {
            Some(d) => parse_iso(s@) == Some(d@) && d.wf(),
            None => parse_iso(s@) is None,
        },
{
    let n = s.unicode_len();
    let ye = digits_end_exec(s, 0);
    if ye != 4 {
        return None;
    }
    if 4 >= n || s.get_char(4) != '-' {
        return None;
    }
    let me = digits_end_exec(s, 5);
    if me - 5 < 1 || me - 5 > 2 {
        return None;
    }
    if me >= n || s.get_char(me) != '-' {
        return None;
    }
    let de = digits_end_exec(s, me + 1);
    if de != n || de - (me + 1) < 1 || de - (me + 1) > 2 {
        return None;
    }
    let y = read_num(s, 0, 4);
    let m = read_num(s, 5, me);
    let d = read_num(s, me + 1, de);
    if check_date(y, m as u8, d) {
        Some(CalendarDate { year: y as u16, month: m as u8, day: d as u8 })
    } else {
        None
    }
}

fn try_slash(s: &str) -> (r: Option<CalendarDate>)
    ensures
        match r {
            Some(d) => parse_slash(s@) == Some(d@) && d.wf(),
            None => parse_slash(s@) is None,
        },
{
    let n = s.unicode_len();
    let me = digits_end_exec(s, 0);
    if me < 1 || me > 2 {
        return None;
    }
    if me >= n || s.get_char(me) != '/' {
        return None;
    }
    let de = digits_end_exec(s, me + 1);
    if de - (me + 1) < 1 || de - (me + 1) > 2 {
        return None;
    }
    if de >= n || s.get_char(de) != '/' {
        return None;
    }
    let ye = digits_end_exec(s, de + 1);
    if ye != n || ye - (de + 1) != 4 {
        return None;
    }
    let m = read_num(s, 0, me);
    let d = read_num(s, me + 1, de);
    let y = read_num(s, de + 1, ye);
    if check_date(y, m as u8, d) {
        Some(CalendarDate { year: y as u16, month: m as u8, day: d as u8 })
    } else {
        None
    }
}

/// Parses a raw publish-date string by trying the four recognized forms
/// in priority order and taking the first that matches.
pub fn parse_date(date_str: &str) -> (r: Result<CalendarDate, DateError>)
    ensures
        match r {
            Ok(d) => parse_date_spec(date_str@) == Some(d@) && d.wf(),
            Err(e) => parse_date_spec(date_str@) is None && e == DateError::UnparseableDate,
        },
{
    if let Some(d) = try_dmy(date_str) {
        return Ok(d);
    }
    if let Some(d) = try_month_first(date_str) {
        return Ok(d);
    }
    if let Some(d) = try_iso(date_str) {
        return Ok(d);
    }
    if let Some(d) = try_slash(date_str) {
        return Ok(d);
    }
    Err(DateError::UnparseableDate)
}

/// The digit character denoting `v`.
pub open spec fn digit_char(v: int) -> char {
    if v == 0 { '0' } else if v == 1 { '1' } else if v == 2 { '2' } else if v == 3 { '3' }
    else if v == 4 { '4' } else if v == 5 { '5' } else if v == 6 { '6' } else if v == 7 { '7' }
    else if v == 8 { '8' } else { '9' }
}

proof fn lemma_digit_char(v: int)
    requires
        0 <= v <= 9,
    ensures
        is_digit(digit_char(v)),
        digit_val(digit_char(v)) == v,
{
}

/// `v` written with two digits.
pub open spec fn two_digits(v: int) -> Seq<char> {
    seq![digit_char(v / 10), digit_char(v % 10)]
}

/// `v` written with four digits.
pub open spec fn four_digits(v: int) -> Seq<char> {
    seq![
        digit_char(v / 1000),
        digit_char((v / 100) % 10),
        digit_char((v / 10) % 10),
        digit_char(v % 10),
    ]
}

/// The date written in form 1: `03 July 2025`.
pub open spec fn dmy_text(y: int, m: int, d: int) -> Seq<char> {
    two_digits(d) + seq![' '] + month_name(m) + seq![' '] + four_digits(y)
}

/// The date written in form 2: `July 03, 2025`.
pub open spec fn month_first_text(y: int, m: int, d: int) -> Seq<char> {
    month_name(m) + seq![' '] + two_digits(d) + seq![',', ' '] + four_digits(y)
}

/// The date written in form 3: `2025-07-03`.
pub open spec fn iso_text(y: int, m: int, d: int) -> Seq<char> {
    four_digits(y) + seq!['-'] + two_digits(m) + seq!['-'] + two_digits(d)
}

/// The date written in form 4: `07/03/2025`.
pub open spec fn slash_text(y: int, m: int, d: int) -> Seq<char> {
    two_digits(m) + seq!['/'] + two_digits(d) + seq!['/'] + four_digits(y)
}

proof fn lemma_two_digits_val(s: Seq<char>, i: int, v: int)
    requires
        0 <= v <= 99,
        0 <= i,
        i + 2 <= s.len(),
        s[i] == digit_char(v / 10),
        s[i + 1] == digit_char(v % 10),
    ensures
        is_digit(s[i]),
        is_digit(s[i + 1]),
        num_val(s, i, i + 2) == v,
{
    lemma_digit_char(v / 10);
    lemma_digit_char(v % 10);
    assert(num_val(s, i, i) == 0);
    assert(num_val(s, i, i + 1) == digit_val(s[i]));
    assert(num_val(s, i, i + 2) == num_val(s, i, i + 1) * 10 + digit_val(s[i + 1]));
}

proof fn lemma_four_digits_val(s: Seq<char>, i: int, v: int)
    requires
        0 <= v <= 9999,
        0 <= i,
        i + 4 <= s.len(),
        s[i] == digit_char(v / 1000),
        s[i + 1] == digit_char((v / 100) % 10),
        s[i + 2] == digit_char((v / 10) % 10),
        s[i + 3] == digit_char(v % 10),
    ensures
        is_digit(s[i]),
        is_digit(s[i + 1]),
        is_digit(s[i + 2]),
        is_digit(s[i + 3]),
        num_val(s, i, i + 4) == v,
{
    lemma_digit_char(v / 1000);
    lemma_digit_char((v / 100) % 10);
    lemma_digit_char((v / 10) % 10);
    lemma_digit_char(v % 10);
    assert(num_val(s, i, i) == 0);
    assert(num_val(s, i, i + 1) == digit_val(s[i]));
    assert(num_val(s, i, i + 2) == num_val(s, i, i + 1) * 10 + digit_val(s[i + 1]));
    assert(num_val(s, i, i + 3) == num_val(s, i, i + 2) * 10 + digit_val(s[i + 2]));
    assert(num_val(s, i, i + 4) == num_val(s, i, i + 3) * 10 + digit_val(s[i + 3]));
    assert(((v / 1000) * 10 + (v / 100) % 10) * 10 + (v / 10) % 10 == v / 10) by (nonlinear_arith)
        requires 0 <= v <= 9999;
    assert((v / 10) * 10 + v % 10 == v);
}

proof fn lemma_digits_end_stops(s: Seq<char>, i: int, j: int)
    requires
        0 <= i <= j <= s.len(),
        forall|k: int| i <= k < j ==> is_digit(s[k]),
        j == s.len() || !is_digit(s[j]),
    ensures
        digits_end(s, i) == j,
    decreases j - i,
{
    if i < j {
        lemma_digits_end_stops(s, i + 1, j);
    }
}

proof fn lemma_mismatch(s: Seq<char>, i: int, pat1: Seq<char>, pat2: Seq<char>, k: int)
    requires
        matches_lower_at(s, i, pat1),
        0 <= k < pat1.len(),
        k < pat2.len(),
        lower_char(pat1[k]) != lower_char(pat2[k]),
    ensures
        !matches_lower_at(s, i, pat2),
{
    if matches_lower_at(s, i, pat2) {
        assert(lower_seq(s.subrange(i, i + pat1.len()))[k] == lower_seq(pat1)[k]);
        assert(lower_seq(s.subrange(i, i + pat2.len()))[k] == lower_seq(pat2)[k]);
        assert(lower_char(s[i + k]) == lower_char(pat1[k]));
        assert(lower_char(s[i + k]) == lower_char(pat2[k]));
    }
}

/// A text that carries month `m`'s name at `i` is matched as month `m`:
/// no earlier month of the fixed trial order matches there.
proof fn lemma_month_at_exact(s: Seq<char>, i: int, m: int)
    requires
        1 <= m <= 12,
        matches_lower_at(s, i, month_name(m)),
    ensures
        month_at(s, i) == Some((m, month_name(m).len() as int)),
{
    reveal_strlit("january");
    reveal_strlit("february");
    reveal_strlit("march");
    reveal_strlit("april");
    reveal_strlit("may");
    reveal_strlit("june");
    reveal_strlit("july");
    reveal_strlit("august");
    reveal_strlit("september");
    reveal_strlit("october");
    reveal_strlit("november");
    reveal_strlit("december");
    let name = month_name(m);
    if m > 1 && m != 6 && m != 7 {
        lemma_mismatch(s, i, name, month_name(1), 0);
    }
    if m == 6 || m == 7 {
        lemma_mismatch(s, i, name, month_name(1), 1);
    }
    if m > 2 {
        lemma_mismatch(s, i, name, month_name(2), 0);
    }
    if m > 3 && m != 5 {
        lemma_mismatch(s, i, name, month_name(3), 0);
    }
    if m == 5 {
        lemma_mismatch(s, i, name, month_name(3), 2);
    }
    if m > 4 && m != 8 {
        lemma_mismatch(s, i, name, month_name(4), 0);
    }
    if m == 8 {
        lemma_mismatch(s, i, name, month_name(4), 1);
    }
    if m > 5 {
        lemma_mismatch(s, i, name, month_name(5), 0);
    }
    if m == 7 {
        lemma_mismatch(s, i, name, month_name(6), 2);
    }
    if m > 7 {
        lemma_mismatch(s, i, name, month_name(6), 0);
        lemma_mismatch(s, i, name, month_name(7), 0);
    }
    if m > 8 {
        lemma_mismatch(s, i, name, month_name(8), 0);
    }
    if m > 9 {
        lemma_mismatch(s, i, name, month_name(9), 0);
    }
    if m > 10 {
        lemma_mismatch(s, i, name, month_name(10), 0);
    }
    if m > 11 {
        lemma_mismatch(s, i, name, month_name(11), 0);
    }
}

/// No month name stands where a digit stands.
proof fn lemma_no_month_at(s: Seq<char>, i: int)
    requires
        0 <= i < s.len(),
        is_digit(s[i]),
    ensures
        month_at(s, i) is None,
{
    reveal_strlit("january");
    reveal_strlit("february");
    reveal_strlit("march");
    reveal_strlit("april");
    reveal_strlit("may");
    reveal_strlit("june");
    reveal_strlit("july");
    reveal_strlit("august");
    reveal_strlit("september");
    reveal_strlit("october");
    reveal_strlit("november");
    reveal_strlit("december");
    assert forall|m: int| 1 <= m <= 12 implies !matches_lower_at(s, i, month_name(m)) by {
        if matches_lower_at(s, i, month_name(m)) {
            assert(lower_seq(s.subrange(i, i + month_name(m).len()))[0]
                == lower_seq(month_name(m))[0]);
            assert(lower_char(s[i]) == lower_char(month_name(m)[0]));
        }
    }
}

proof fn lemma_parse_dmy_text(y: int, m: int, d: int)
    requires
        valid_date(y, m, d),
    ensures
        parse_dmy(dmy_text(y, m, d)) == Some(DateVal { year: y, month: m, day: d }),
{
    let s = dmy_text(y, m, d);
    let name = month_name(m);
    let l = name.len() as int;
    assert(s.len() == l + 8);
    assert(s[0] == digit_char(d / 10));
    assert(s[1] == digit_char(d % 10));
    assert(s[2] == ' ');
    assert(s.subrange(3, 3 + l) =~= name);
    assert(s[3 + l] == ' ');
    assert(s[l + 4] == digit_char(y / 1000));
    assert(s[l + 5] == digit_char((y / 100) % 10));
    assert(s[l + 6] == digit_char((y / 10) % 10));
    assert(s[l + 7] == digit_char(y % 10));
    lemma_two_digits_val(s, 0, d);
    lemma_four_digits_val(s, l + 4, y);
    lemma_digits_end_stops(s, 0, 2);
    lemma_digits_end_stops(s, l + 4, l + 8);
    assert(lower_seq(s.subrange(3, 3 + l)) == lower_seq(name));
    lemma_month_at_exact(s, 3, m);
}

proof fn lemma_parse_month_first_text(y: int, m: int, d: int)
    requires
        valid_date(y, m, d),
    ensures
        parse_month_first(month_first_text(y, m, d))
            == Some(DateVal { year: y, month: m, day: d }),
{
    let s = month_first_text(y, m, d);
    let name = month_name(m);
    let l = name.len() as int;
    assert(s.len() == l + 9);
    assert(s.subrange(0, l) =~= name);
    assert(s[l] == ' ');
    assert(s[l + 1] == digit_char(d / 10));
    assert(s[l + 2] == digit_char(d % 10));
    assert(s[l + 3] == ',');
    assert(s[l + 4] == ' ');
    assert(s[l + 5] == digit_char(y / 1000));
    assert(s[l + 6] == digit_char((y / 100) % 10));
    assert(s[l + 7] == digit_char((y / 10) % 10));
    assert(s[l + 8] == digit_char(y % 10));
    lemma_two_digits_val(s, l + 1, d);
    lemma_four_digits_val(s, l + 5, y);
    lemma_digits_end_stops(s, l + 1, l + 3);
    lemma_digits_end_stops(s, l + 5, l + 9);
    assert(lower_seq(s.subrange(0, l)) == lower_seq(name));
    lemma_month_at_exact(s, 0, m);
}

proof fn lemma_parse_iso_text(y: int, m: int, d: int)
    requires
        valid_date(y, m, d),
    ensures
        parse_iso(iso_text(y, m, d)) == Some(DateVal { year: y, month: m, day: d }),
{
    let s = iso_text(y, m, d);
    assert(s.len() == 10);
    assert(s[0] == digit_char(y / 1000));
    assert(s[1] == digit_char((y / 100) % 10));
    assert(s[2] == digit_char((y / 10) % 10));
    assert(s[3] == digit_char(y % 10));
    assert(s[4] == '-');
    assert(s[5] == digit_char(m / 10));
    assert(s[6] == digit_char(m % 10));
    assert(s[7] == '-');
    assert(s[8] == digit_char(d / 10));
    assert(s[9] == digit_char(d % 10));
    lemma_four_digits_val(s, 0, y);
    lemma_two_digits_val(s, 5, m);
    lemma_two_digits_val(s, 8, d);
    lemma_digits_end_stops(s, 0, 4);
    lemma_digits_end_stops(s, 5, 7);
    lemma_digits_end_stops(s, 8, 10);
}

proof fn lemma_parse_slash_text(y: int, m: int, d: int)
    requires
        valid_date(y, m, d),
    ensures
        parse_slash(slash_text(y, m, d)) == Some(DateVal { year: y, month: m, day: d }),
{
    let s = slash_text(y, m, d);
    assert(s.len() == 10);
    assert(s[0] == digit_char(m / 10));
    assert(s[1] == digit_char(m % 10));
    assert(s[2] == '/');
    assert(s[3] == digit_char(d / 10));
    assert(s[4] == digit_char(d % 10));
    assert(s[5] == '/');
    assert(s[6] == digit_char(y / 1000));
    assert(s[7] == digit_char((y / 100) % 10));
    assert(s[8] == digit_char((y / 10) % 10));
    assert(s[9] == digit_char(y % 10));
    lemma_two_digits_val(s, 0, m);
    lemma_two_digits_val(s, 3, d);
    lemma_four_digits_val(s, 6, y);
    lemma_digits_end_stops(s, 0, 2);
    lemma_digits_end_stops(s, 3, 5);
    lemma_digits_end_stops(s, 6, 10);
}

/// Any valid calendar date, written in each of the four recognized text
/// forms, parses back to that same calendar date — which the parser
/// fixes at 12:00:00 UTC offset zero.
pub proof fn lemma_four_forms_same_date(y: int, m: int, d: int)
    requires
        valid_date(y, m, d),
    ensures
        parse_date_spec(dmy_text(y, m, d)) == Some(DateVal { year: y, month: m, day: d }),
        parse_date_spec(month_first_text(y, m, d))
            == Some(DateVal { year: y, month: m, day: d }),
        parse_date_spec(iso_text(y, m, d)) == Some(DateVal { year: y, month: m, day: d }),
        parse_date_spec(slash_text(y, m, d)) == Some(DateVal { year: y, month: m, day: d }),
{
    reveal_strlit("january");
    reveal_strlit("february");
    reveal_strlit("march");
    reveal_strlit("april");
    reveal_strlit("may");
    reveal_strlit("june");
    reveal_strlit("july");
    reveal_strlit("august");
    reveal_strlit("september");
    reveal_strlit("october");
    reveal_strlit("november");
    reveal_strlit("december");
    lemma_parse_dmy_text(y, m, d);

    let s2 = month_first_text(y, m, d);
    lemma_parse_month_first_text(y, m, d);
    assert(s2[0] == month_name(m)[0]);
    assert(!is_digit(s2[0]));
    assert(digits_end(s2, 0) == 0);
    assert(parse_dmy(s2) is None);

    let s3 = iso_text(y, m, d);
    lemma_parse_iso_text(y, m, d);
    assert(s3[0] == digit_char(y / 1000));
    assert(s3[1] == digit_char((y / 100) % 10));
    assert(s3[2] == digit_char((y / 10) % 10));
    assert(s3[3] == digit_char(y % 10));
    assert(s3[4] == '-');
    lemma_four_digits_val(s3, 0, y);
    lemma_digits_end_stops(s3, 0, 4);
    assert(parse_dmy(s3) is None);
    lemma_no_month_at(s3, 0);
    assert(parse_month_first(s3) is None);

    let s4 = slash_text(y, m, d);
    lemma_parse_slash_text(y, m, d);
    assert(s4[0] == digit_char(m / 10));
    assert(s4[1] == digit_char(m % 10));
    assert(s4[2] == '/');
    lemma_two_digits_val(s4, 0, m);
    lemma_digits_end_stops(s4, 0, 2);
    assert(parse_dmy(s4) is None);
    lemma_no_month_at(s4, 0);
    assert(parse_month_first(s4) is None);
    assert(parse_iso(s4) is None);
}

/// A strictly increasing encoding of calendar dates, used as the
/// ordering key of the post list.
pub open spec fn date_ordinal(d: DateVal) -> int {
    d.year * 372 + (d.month - 1) * 31 + d.day
}

/// The Unix epoch, the date that posts with unparseable publish dates
/// sort as.
pub open spec fn epoch() -> DateVal {
    DateVal { year: 1970, month: 1, day: 1 }
}

/// The sort key of a raw publish-date string: a parsed date counts as
/// noon on that day, an unparseable one as the epoch's midnight, which
/// orders strictly before the epoch date itself.
pub open spec fn date_key_spec(s: Seq<char>) -> int {
    match parse_date_spec(s) {
        Some(d) => 2 * date_ordinal(d) + 1,
        None => 2 * date_ordinal(epoch()),
    }
}

/// Runtime counterpart of [`date_key_spec`].
pub fn date_key(date_str: &str) -> (r: u64)
    ensures
        r == date_key_spec(date_str@),
{
    match parse_date(date_str) {
        Ok(d) => {
            let ord: u64 = d.year as u64 * 372 + (d.month as u64 - 1) * 31 + d.day as u64;
            2 * ord + 1
        },
        Err(_) => {
            let ord: u64 = 1970 * 372 + 1;
            2 * ord
        },
    }
}

} // verus!
