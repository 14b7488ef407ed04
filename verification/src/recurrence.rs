//! Recurrence rules and the due dates they generate.
//!
//! A rule is text: `none` (or empty) for a single date, `days:K` for every K
//! days, `months:M` for every M months, and `nth:N:Day` for the N-th given
//! weekday of each month. From a start date (`%Y-%m-%d`; unreadable text
//! counts as January 1, 1970) the day and month rules cover one year,
//! start date included; the weekday rule covers the twelve months from the
//! start date's month and keeps dates on or after the start date.

use vstd::prelude::*;
use crate::calendar::{
    add_days, add_months, default_day, format_ymd, from_ymd, month_of_day, parse_ymd,
    weekday_of_day, year_of_day, day_from_ymd, day_number, formatted_ymd, lemma_civil_of,
    lemma_one_month_after, lemma_months_after_later, is_valid_day, day_of_month,
    lemma_days_around_month, lemma_year_range, lemma_one_month_after_exists, lemma_month_length,
    civil_of, lemma_civil_of_day_number, month_of,
    months_after, parsed_ymd, weekday_index, year_of, EPOCH_DAY, MAX_DAY,
};
use crate::text::{
    chars_equal_str, chars_of, lemma_parsed_u32_nonneg, lemma_split_nonempty, parse_i64, parse_u32, parsed_i64,
    parsed_u32, pieces_view,
    split_chars, split_on, str_equal,
};

verus! {

// ---------------------------------------------------------------------------
// What a rule generates
// ---------------------------------------------------------------------------

/// The integers of a sequence of day numbers.
pub open spec fn day_ints(v: Seq<i32>) -> Seq<int> {
    v.map_values(|d: i32| d as int)
}

/// The texts of a sequence of strings.
pub open spec fn string_views(v: Seq<String>) -> Seq<Seq<char>> {
    v.map_values(|s: String| s@)
}

/// Every day number is representable.
pub open spec fn all_valid(v: Seq<i32>) -> bool {
    forall|i: int| 0 <= i < v.len() ==> is_valid_day(#[trigger] v[i] as int)
}

/// `acc` followed by the result, where there is one.
pub open spec fn prepend(acc: Seq<int>, rest: Option<Seq<int>>) -> Option<Seq<int>> {
    match rest {
        Some(r) => Some(acc + r),
        None => None,
    }
}

/// Nothing before a result leaves it as it is.
pub proof fn lemma_prepend_empty(rest: Option<Seq<int>>)
    ensures
        prepend(Seq::<int>::empty(), rest) == rest,
{
    if let Some(r) = rest {
        assert(Seq::<int>::empty() + r =~= r);
    }
}

/// Putting `acc` before `s` before a result is putting `acc + s` before it.
pub proof fn lemma_prepend_assoc(acc: Seq<int>, s: Seq<int>, rest: Option<Seq<int>>)
    ensures
        prepend(acc, prepend(s, rest)) == prepend(acc + s, rest),
{
    if let Some(r) = rest {
        assert(acc + (s + r) =~= (acc + s) + r);
    }
}

/// Putting `acc` before the empty result gives `acc`.
pub proof fn lemma_prepend_done(acc: Seq<int>)
    ensures
        prepend(acc, Some(Seq::<int>::empty())) == Some(acc),
{
    assert(acc + Seq::<int>::empty() =~= acc);
}

/// The start date that a rule counts from: the parsed text, or January 1,
/// 1970 where the text does not parse.
pub open spec fn start_day(start: Seq<char>) -> int {
    match parsed_ymd(start) {
        Some(d) => d,
        None => EPOCH_DAY as int,
    }
}

/// A rule for a single date.
pub open spec fn is_once_rule(rule: Seq<char>) -> bool {
    rule == "none"@ || rule.len() == 0
}

/// The weekday a rule names, Monday being 0; `Sun` and unknown names count as
/// Monday.
pub open spec fn weekday_code(name: Seq<char>) -> int {
    if name == "Tue"@ {
        1
    } else if name == "Wed"@ {
        2
    } else if name == "Thu"@ {
        3
    } else if name == "Fri"@ {
        4
    } else if name == "Sat"@ {
        5
    } else {
        0
    }
}

/// The dates from `cur` to `limit`, `k` days apart; `None` where the stepping
/// never ends (`k <= 0`) or leaves the representable range.
pub open spec fn every_k_days(cur: int, limit: int, k: int) -> Option<Seq<int>>
    decreases (if cur <= limit { limit - cur + 1 } else { 0 }),
{
    if cur > limit {
        Some(Seq::<int>::empty())
    } else if k <= 0 || cur + k > MAX_DAY {
        None
    } else {
        prepend(seq![cur], every_k_days(cur + k, limit, k))
    }
}

/// The dates from `cur` to `limit`, `m` months apart; `None` where the
/// stepping never ends (`m == 0`).
pub open spec fn every_m_months(cur: int, limit: int, m: int) -> Option<Seq<int>>
    decreases (if cur <= limit { limit - cur + 1 } else { 0 }),
{
    if cur > limit {
        Some(Seq::<int>::empty())
    } else if m == 0 {
        None
    } else {
        match months_after(cur, m) {
            None => Some(seq![cur]),
            Some(next) => if next > cur {
                prepend(seq![cur], every_m_months(next, limit, m))
            } else {
                None
            },
        }
    }
}

/// The first date on or after `first` that falls on weekday `wd`.
pub open spec fn first_weekday_from(first: int, wd: int) -> int {
    first + (wd - weekday_index(first)) % 7
}

/// The `n`-th weekday `wd` of the month of `cur`, if it lies in that month and
/// not before `start`; `None` where computing it panics.
pub open spec fn nth_weekday_in_month(cur: int, start: int, n: int, wd: int) -> Option<Seq<int>> {
    match day_from_ymd(year_of(cur), month_of(cur), 1) {
        None => Some(Seq::<int>::empty()),
        Some(first) => {
            let target = first_weekday_from(first, wd);
            if target > MAX_DAY || n == 0 || (n - 1) * 7 > u32::MAX {
                None
            } else {
                let fin = target + (n - 1) * 7;
                if fin > MAX_DAY {
                    None
                } else if month_of(fin) == month_of(cur) && fin >= start {
                    Some(seq![fin])
                } else {
                    Some(Seq::<int>::empty())
                }
            }
        },
    }
}

/// The `n`-th weekday `wd` of each of `steps` months, from the month of `cur`.
pub open spec fn nth_weekday_days(cur: int, steps: nat, start: int, n: int, wd: int) -> Option<
    Seq<int>,
>
    decreases steps,
{
    if steps == 0 {
        Some(Seq::<int>::empty())
    } else {
        match nth_weekday_in_month(cur, start, n, wd) {
            None => None,
            Some(here) => match months_after(cur, 1) {
                None => Some(here),
                Some(next) => prepend(here, nth_weekday_days(next, (steps - 1) as nat, start, n, wd)),
            },
        }
    }
}

/// The day numbers that a `days`, `months` or `nth` rule (already split at
/// `:`) generates from day `s`; `None` where generating them panics or never
/// ends.
pub open spec fn generated_days(s: int, parts: Seq<Seq<char>>) -> Option<Seq<int>> {
    if parts[0] == "days"@ {
        if parts.len() < 2 {
            None
        } else {
            match parsed_i64(parts[1]) {
                None => Some(Seq::<int>::empty()),
                Some(k) => every_k_days(s, s + 365, k),
            }
        }
    } else if parts[0] == "months"@ {
        if parts.len() < 2 {
            None
        } else {
            match parsed_u32(parts[1]) {
                None => Some(Seq::<int>::empty()),
                Some(m) => every_m_months(s, s + 365, m),
            }
        }
    } else if parts.len() == 3 {
        let n = match parsed_u32(parts[1]) {
            Some(v) => v,
            None => 1,
        };
        nth_weekday_days(s, 12, s, n, weekday_code(parts[2]))
    } else {
        Some(Seq::<int>::empty())
    }
}

/// A rule whose kind the generator knows.
pub open spec fn is_known_kind(kind: Seq<char>) -> bool {
    kind == "days"@ || kind == "months"@ || kind == "nth"@
}

/// The due dates that `rule` generates from the start date `start`; `None`
/// exactly where generating them panics or never ends.
pub open spec fn recurring_dates(start: Seq<char>, rule: Seq<char>) -> Option<Seq<Seq<char>>> {
    if is_once_rule(rule) {
        Some(seq![start])
    } else if start_day(start) + 365 > MAX_DAY {
        None
    } else if is_known_kind(split_on(rule, ':')[0]) {
        match generated_days(start_day(start), split_on(rule, ':')) {
            Some(ds) => Some(ds.map_values(|d: int| formatted_ymd(d))),
            None => None,
        }
    } else {
        Some(seq![start])
    }
}


// ---------------------------------------------------------------------------
// Generating the dates
// ---------------------------------------------------------------------------

/// The dates from `start` to `limit`, `k` days apart.
fn every_k_days_exec(start: i32, limit: i32, k: i64) -> (r: Option<Vec<i32>>)
    requires
        is_valid_day(start as int),
        is_valid_day(limit as int),
        start <= limit,
    ensures
        every_k_days(start as int, limit as int, k as int) == (match r {
            Some(v) => Some(day_ints(v@)),
            None => None::<Seq<int>>,
        }),
        r matches Some(v) ==> all_valid(v@),
{
    if k <= 0 {
        return None;
    }
    let mut out: Vec<i32> = Vec::new();
    let mut cur: i32 = start;
    assert(day_ints(out@) =~= Seq::<int>::empty());
    proof {
        lemma_prepend_empty(every_k_days(start as int, limit as int, k as int));
    }
    while cur <= limit
        invariant
            k > 0,
            all_valid(out@),
            is_valid_day(limit as int),
            is_valid_day(cur as int),
            every_k_days(start as int, limit as int, k as int) == prepend(
                day_ints(out@),
                every_k_days(cur as int, limit as int, k as int),
            ),
        decreases (if cur <= limit { limit - cur + 1 } else { 0 }),
    {
        let ghost acc = day_ints(out@);
        let ghost rest = every_k_days(cur as int + k, limit as int, k as int);
        out.push(cur);
        assert(day_ints(out@) =~= acc + seq![cur as int]);
        if k > (MAX_DAY as i64) - (cur as i64) {
            return None;
        }
        proof {
            lemma_prepend_assoc(acc, seq![cur as int], rest);
        }
        cur = add_days(cur, k);
    }
    proof {
        lemma_prepend_done(day_ints(out@));
    }
    Some(out)
}

/// The dates from `start` to `limit`, `m` months apart.
fn every_m_months_exec(start: i32, limit: i32, m: u32) -> (r: Option<Vec<i32>>)
    requires
        is_valid_day(start as int),
        is_valid_day(limit as int),
        start <= limit,
    ensures
        every_m_months(start as int, limit as int, m as int) == (match r {
            Some(v) => Some(day_ints(v@)),
            None => None::<Seq<int>>,
        }),
        r matches Some(v) ==> all_valid(v@),
{
    if m == 0 {
        return None;
    }
    let mut out: Vec<i32> = Vec::new();
    let mut cur: i32 = start;
    assert(day_ints(out@) =~= Seq::<int>::empty());
    proof {
        lemma_prepend_empty(every_m_months(start as int, limit as int, m as int));
    }
    while cur <= limit
        invariant
            m > 0,
            all_valid(out@),
            is_valid_day(limit as int),
            is_valid_day(cur as int),
            every_m_months(start as int, limit as int, m as int) == prepend(
                day_ints(out@),
                every_m_months(cur as int, limit as int, m as int),
            ),
        decreases (if cur <= limit { limit - cur + 1 } else { 0 }),
    {
        let ghost acc = day_ints(out@);
        out.push(cur);
        assert(day_ints(out@) =~= acc + seq![cur as int]);
        let step = add_months(cur, m);
        proof {
            if step is Some {
                lemma_months_after_later(cur as int, m as int);
            }
        }
        match step {
            None => {
                return Some(out);
            },
            Some(next) => {
                let ghost rest = every_m_months(next as int, limit as int, m as int);
                proof {
                    lemma_prepend_assoc(acc, seq![cur as int], rest);
                }
                cur = next;
            },
        }
    }
    proof {
        lemma_prepend_done(day_ints(out@));
    }
    Some(out)
}

/// The `n`-th weekday `wd` of the month of `cur`, if it lies in that month and
/// not before `start`.
fn nth_weekday_in_month_exec(cur: i32, start: i32, n: u32, wd: u32) -> (r: Option<Vec<i32>>)
    requires
        is_valid_day(cur as int),
        wd < 7,
    ensures
        nth_weekday_in_month(cur as int, start as int, n as int, wd as int) == (match r {
            Some(v) => Some(day_ints(v@)),
            None => None::<Seq<int>>,
        }),
        r matches Some(v) ==> all_valid(v@),
{
    let year = year_of_day(cur);
    let month = month_of_day(cur);
    let mut out: Vec<i32> = Vec::new();
    match from_ymd(year, month, 1) {
        None => {
            assert(day_ints(out@) =~= Seq::<int>::empty());
            Some(out)
        },
        Some(first) => {
            let w = weekday_of_day(first);
            let shift: u32 = if wd >= w { wd - w } else { wd + 7 - w };
            assert(shift as int == (wd as int - weekday_index(first as int)) % 7);
            if shift as i32 > MAX_DAY - first {
                return None;
            }
            let target: i32 = first + shift as i32;
            if n == 0 {
                return None;
            }
            if n - 1 > 613566756 {
                return None;
            }
            let offset: u32 = (n - 1) * 7;
            if offset as i64 > (MAX_DAY as i64) - (target as i64) {
                return None;
            }
            let fin = add_days(target, offset as i64);
            if month_of_day(fin) == month && fin >= start {
                out.push(fin);
                assert(day_ints(out@) =~= seq![fin as int]);
            } else {
                assert(day_ints(out@) =~= Seq::<int>::empty());
            }
            Some(out)
        },
    }
}

/// The `n`-th weekday `wd` of each of twelve months, from the month of `start`.
fn nth_weekday_days_exec(start: i32, n: u32, wd: u32) -> (r: Option<Vec<i32>>)
    requires
        is_valid_day(start as int),
        wd < 7,
    ensures
        nth_weekday_days(start as int, 12, start as int, n as int, wd as int) == (match r {
            Some(v) => Some(day_ints(v@)),
            None => None::<Seq<int>>,
        }),
        r matches Some(v) ==> all_valid(v@),
{
    let mut out: Vec<i32> = Vec::new();
    let mut cur: i32 = start;
    let mut steps: u32 = 12;
    assert(day_ints(out@) =~= Seq::<int>::empty());
    proof {
        lemma_prepend_empty(nth_weekday_days(start as int, 12, start as int, n as int, wd as int));
    }
    while steps > 0
        invariant
            wd < 7,
            all_valid(out@),
            is_valid_day(cur as int),
            nth_weekday_days(start as int, 12, start as int, n as int, wd as int) == prepend(
                day_ints(out@),
                nth_weekday_days(cur as int, steps as nat, start as int, n as int, wd as int),
            ),
        decreases steps,
    {
        let ghost acc = day_ints(out@);
        let here = match nth_weekday_in_month_exec(cur, start, n, wd) {
            None => {
                return None;
            },
            Some(h) => h,
        };
        let mut i: usize = 0;
        let ghost acc_here = acc + day_ints(here@);
        while i < here.len()
            invariant
                i <= here@.len(),
                all_valid(out@),
                all_valid(here@),
                day_ints(out@) == acc + day_ints(here@.subrange(0, i as int)),
            decreases here.len() - i,
        {
            let ghost before = day_ints(out@);
            out.push(here[i]);
            assert(day_ints(here@.subrange(0, i + 1)) =~= day_ints(here@.subrange(0, i as int)).push(here@[i as int] as int));
            assert(day_ints(out@) =~= before.push(here@[i as int] as int));
            i = i + 1;
        }
        assert(here@.subrange(0, here@.len() as int) =~= here@);
        match add_months(cur, 1) {
            None => {
                assert(prepend(acc, Some(day_ints(here@))) == Some(day_ints(out@)));
                return Some(out);
            },
            Some(next) => {
                let ghost rest = nth_weekday_days(next as int, (steps - 1) as nat, start as int, n as int, wd as int);
                proof {
                    lemma_prepend_assoc(acc, day_ints(here@), rest);
                }
                cur = next;
            },
        }
        steps = steps - 1;
    }
    proof {
        lemma_prepend_done(day_ints(out@));
    }
    Some(out)
}


/// The weekday a rule names, Monday being 0.
fn weekday_code_exec(name: &Vec<char>) -> (r: u32)
    ensures
        r as int == weekday_code(name@),
        r < 7,
{
    if chars_equal_str(name, "Tue") {
        1
    } else if chars_equal_str(name, "Wed") {
        2
    } else if chars_equal_str(name, "Thu") {
        3
    } else if chars_equal_str(name, "Fri") {
        4
    } else if chars_equal_str(name, "Sat") {
        5
    } else {
        0
    }
}

/// The day numbers that a `days`, `months` or `nth` rule generates from `s`.
fn generated_days_exec(s: i32, parts: &Vec<Vec<char>>) -> (r: Option<Vec<i32>>)
    requires
        is_valid_day(s as int),
        s + 365 <= MAX_DAY,
        parts@.len() >= 1,
    ensures
        generated_days(s as int, pieces_view(parts@)) == (match r {
            Some(v) => Some(day_ints(v@)),
            None => None::<Seq<int>>,
        }),
        r matches Some(v) ==> all_valid(v@),
{
    let ghost pv = pieces_view(parts@);
    assert(pv[0] == parts@[0]@);
    let kind = &parts[0];
    if chars_equal_str(kind, "days") {
        if parts.len() < 2 {
            return None;
        }
        assert(pv[1] == parts@[1]@);
        match parse_i64(&parts[1]) {
            None => {
                let out: Vec<i32> = Vec::new();
                assert(day_ints(out@) =~= Seq::<int>::empty());
                Some(out)
            },
            Some(k) => every_k_days_exec(s, s + 365, k),
        }
    } else if chars_equal_str(kind, "months") {
        if parts.len() < 2 {
            return None;
        }
        assert(pv[1] == parts@[1]@);
        match parse_u32(&parts[1]) {
            None => {
                let out: Vec<i32> = Vec::new();
                assert(day_ints(out@) =~= Seq::<int>::empty());
                Some(out)
            },
            Some(m) => every_m_months_exec(s, s + 365, m),
        }
    } else if parts.len() == 3 {
        assert(pv[1] == parts@[1]@);
        assert(pv[2] == parts@[2]@);
        let n: u32 = match parse_u32(&parts[1]) {
            Some(v) => v,
            None => 1,
        };
        let wd = weekday_code_exec(&parts[2]);
        nth_weekday_days_exec(s, n, wd)
    } else {
        let out: Vec<i32> = Vec::new();
        assert(day_ints(out@) =~= Seq::<int>::empty());
        Some(out)
    }
}

/// The `%Y-%m-%d` texts of day numbers, in order.
fn format_days(v: &Vec<i32>) -> (r: Vec<String>)
    requires
        all_valid(v@),
    ensures
        string_views(r@) == day_ints(v@).map_values(|d: int| formatted_ymd(d)),
{
    let mut out: Vec<String> = Vec::new();
    let mut i: usize = 0;
    while i < v.len()
        invariant
            i <= v@.len(),
            all_valid(v@),
            string_views(out@) == day_ints(v@.subrange(0, i as int)).map_values(|d: int| formatted_ymd(d)),
        decreases v.len() - i,
    {
        let ghost before = string_views(out@);
        let text = format_ymd(v[i]);
        out.push(text);
        assert(string_views(out@) =~= before.push(formatted_ymd(v@[i as int] as int)));
        assert(day_ints(v@.subrange(0, i + 1)).map_values(|d: int| formatted_ymd(d)) =~=
            day_ints(v@.subrange(0, i as int)).map_values(|d: int| formatted_ymd(d)).push(formatted_ymd(v@[i as int] as int)));
        i = i + 1;
    }
    assert(v@.subrange(0, v@.len() as int) =~= v@);
    out
}

/// The due dates of `rule` from `start_date_str`, or `None` where generating
/// them panics or never ends.
fn compute_dates(start_date_str: &str, rule: &str) -> (r: Option<Vec<String>>)
    ensures
        recurring_dates(start_date_str@, rule@) == (match r {
            Some(v) => Some(string_views(v@)),
            None => None::<Seq<Seq<char>>>,
        }),
{
    let s: i32 = match parse_ymd(start_date_str) {
        Some(d) => d,
        None => default_day(),
    };
    if str_equal(rule, "none") || rule.is_empty() {
        let mut out: Vec<String> = Vec::new();
        out.push(start_date_str.to_owned());
        assert(string_views(out@) =~= seq![start_date_str@]);
        return Some(out);
    }
    if s > MAX_DAY - 365 {
        return None;
    }
    let rule_chars = chars_of(rule);
    let parts = split_chars(&rule_chars, ':');
    let ghost pv = pieces_view(parts@);
    assert(pv[0] == parts@[0]@);
    if chars_equal_str(&parts[0], "days") || chars_equal_str(&parts[0], "months") || chars_equal_str(&parts[0], "nth") {
        match generated_days_exec(s, &parts) {
            None => None,
            Some(days) => Some(format_days(&days)),
        }
    } else {
        let mut out: Vec<String> = Vec::new();
        out.push(start_date_str.to_owned());
        assert(string_views(out@) =~= seq![start_date_str@]);
        Some(out)
    }
}


/// The due dates that `rule` generates from `start_date_str`, in order.
///
/// A single-date rule (`none` or empty) and a rule of unknown kind give the
/// start text itself; the other rules give `%Y-%m-%d` texts. The inputs on
/// which generating panics or never ends (such as `days:0`, `months:0`,
/// `days` with no interval, `nth:0:Mon`, or dates beyond chrono's range) are
/// left out; `try_generate_recurring_dates` takes every input.
pub fn generate_recurring_dates(start_date_str: &str, rule: &str) -> (dates: Vec<String>)
    requires
        recurring_dates(start_date_str@, rule@) is Some,
    ensures
        Some(string_views(dates@)) == recurring_dates(start_date_str@, rule@),
{
    match compute_dates(start_date_str, rule) {
        Some(dates) => dates,
        None => {
            assert(false);
            Vec::new()
        },
    }
}

/// The due dates that `rule` generates from `start_date_str`, or `None` on
/// the inputs on which generating them panics or never ends.
pub fn try_generate_recurring_dates(start_date_str: &str, rule: &str) -> (r: Option<Vec<String>>)
    ensures
        recurring_dates(start_date_str@, rule@) == (match r {
            Some(v) => Some(string_views(v@)),
            None => None::<Seq<Seq<char>>>,
        }),
{
    if compute_dates(start_date_str, rule).is_some() {
        Some(generate_recurring_dates(start_date_str, rule))
    } else {
        None
    }
}


// ---------------------------------------------------------------------------
// Laws
// ---------------------------------------------------------------------------

/// Stepping `k` days at a time from `cur` to `limit` gives `(limit - cur) / k + 1`
/// dates, the `i`-th being `cur + i * k`.
pub proof fn lemma_every_k_days_shape(cur: int, limit: int, k: int)
    requires
        cur <= limit,
        k > 0,
        every_k_days(cur, limit, k) is Some,
    ensures
        every_k_days(cur, limit, k).unwrap().len() == (limit - cur) / k + 1,
        forall|i: int|
            0 <= i < every_k_days(cur, limit, k).unwrap().len() ==> #[trigger] every_k_days(
                cur,
                limit,
                k,
            ).unwrap()[i] == cur + i * k,
    decreases limit - cur + 1,
{
    let ds = every_k_days(cur, limit, k).unwrap();
    if cur + k > limit {
        assert(every_k_days(cur + k, limit, k) == Some(Seq::<int>::empty()));
        assert(ds =~= seq![cur]);
        assert((limit - cur) / k == 0) by (nonlinear_arith)
            requires 0 <= limit - cur < k;
        assert forall|i: int| 0 <= i < ds.len() implies #[trigger] ds[i] == cur + i * k by {
            assert(i == 0);
            assert(i * k == 0) by (nonlinear_arith)
                requires i == 0;
        }
    } else {
        lemma_every_k_days_shape(cur + k, limit, k);
        let rest = every_k_days(cur + k, limit, k).unwrap();
        assert(ds =~= seq![cur] + rest);
        assert((limit - cur - k) / k + 1 == (limit - cur) / k) by (nonlinear_arith)
            requires limit - cur >= k, k > 0;
        assert forall|i: int| 0 <= i < ds.len() implies #[trigger] ds[i] == cur + i * k by {
            if i > 0 {
                assert(ds[i] == rest[i - 1]);
                assert(rest[i - 1] == cur + k + (i - 1) * k);
                assert(cur + k + (i - 1) * k == cur + i * k) by (nonlinear_arith);
            } else {
                assert(i * k == 0) by (nonlinear_arith)
                    requires i == 0;
            }
        }
    }
}

/// Stepping `m > 0` months at a time from `cur` to `limit` gives dates that
/// start at `cur`, rise strictly, and stay within `cur..=limit`.
pub proof fn lemma_every_m_months_shape(cur: int, limit: int, m: int)
    requires
        cur <= limit,
        every_m_months(cur, limit, m) is Some,
    ensures
        every_m_months(cur, limit, m).unwrap().len() >= 1,
        every_m_months(cur, limit, m).unwrap()[0] == cur,
        forall|i: int|
            0 <= i < every_m_months(cur, limit, m).unwrap().len() ==> cur <= #[trigger] every_m_months(
                cur,
                limit,
                m,
            ).unwrap()[i] <= limit,
        forall|i: int, j: int|
            0 <= i < j < every_m_months(cur, limit, m).unwrap().len() ==> #[trigger] every_m_months(
                cur,
                limit,
                m,
            ).unwrap()[i] < #[trigger] every_m_months(cur, limit, m).unwrap()[j],
    decreases limit - cur + 1,
{
    let ds = every_m_months(cur, limit, m).unwrap();
    match months_after(cur, m) {
        None => {
            assert(ds =~= seq![cur]);
        },
        Some(next) => {
            if next > limit {
                assert(every_m_months(next, limit, m) == Some(Seq::<int>::empty()));
                assert(ds =~= seq![cur]);
            } else {
                lemma_every_m_months_shape(next, limit, m);
                let rest = every_m_months(next, limit, m).unwrap();
                assert(ds =~= seq![cur] + rest);
                assert forall|i: int, j: int| 0 <= i < j < ds.len() implies #[trigger] ds[i] < #[trigger] ds[j] by {
                    if i > 0 {
                        assert(rest[i - 1] < rest[j - 1]);
                    } else {
                        assert(next <= rest[j - 1]);
                    }
                }
                assert forall|i: int| 0 <= i < ds.len() implies cur <= #[trigger] ds[i] <= limit by {
                    if i > 0 {
                        assert(next <= rest[i - 1] <= limit);
                    }
                }
            }
        },
    }
}

/// The first date on or after `first` on weekday `wd` falls on that weekday,
/// and so does every date a whole number of weeks after it.
pub proof fn lemma_weekday_of_target(first: int, wd: int, weeks: int)
    requires
        0 <= wd < 7,
        weeks >= 0,
    ensures
        weekday_index(first_weekday_from(first, wd) + weeks * 7) == wd,
        first <= first_weekday_from(first, wd) <= first + 6,
{
    let r = (first - 1) % 7;
    let shift = (wd - r) % 7;
    assert(0 <= r < 7);
    assert(shift == if wd >= r { wd - r } else { wd - r + 7 });
    let x = first - 1 + shift + weeks * 7;
    assert(first - 1 == 7 * ((first - 1) / 7) + r);
    assert(x == 7 * ((first - 1) / 7 + weeks) + r + shift) by (nonlinear_arith)
        requires x == first - 1 + shift + weeks * 7, first - 1 == 7 * ((first - 1) / 7) + r;
    vstd::arithmetic::div_mod::lemma_mod_multiples_vanish((first - 1) / 7 + weeks, r + shift, 7);
}

/// Every date of a weekday rule falls on the named weekday, none lies before
/// the start date, and there is at most one per month.
pub proof fn lemma_nth_weekday_days_shape(cur: int, steps: nat, start: int, n: int, wd: int)
    requires
        0 <= wd < 7,
        n >= 0,
        nth_weekday_days(cur, steps, start, n, wd) is Some,
    ensures
        nth_weekday_days(cur, steps, start, n, wd).unwrap().len() <= steps,
        forall|i: int|
            0 <= i < nth_weekday_days(cur, steps, start, n, wd).unwrap().len() ==> weekday_index(
                #[trigger] nth_weekday_days(cur, steps, start, n, wd).unwrap()[i],
            ) == wd && nth_weekday_days(cur, steps, start, n, wd).unwrap()[i] >= start,
    decreases steps,
{
    if steps > 0 {
        let here = nth_weekday_in_month(cur, start, n, wd).unwrap();
        assert(here.len() <= 1);
        assert forall|i: int| 0 <= i < here.len() implies weekday_index(#[trigger] here[i]) == wd
            && here[i] >= start by {
            let first = day_from_ymd(year_of(cur), month_of(cur), 1).unwrap();
            lemma_weekday_of_target(first, wd, n - 1);
        }
        match months_after(cur, 1) {
            None => {},
            Some(next) => {
                lemma_nth_weekday_days_shape(next, (steps - 1) as nat, start, n, wd);
                let rest = nth_weekday_days(next, (steps - 1) as nat, start, n, wd).unwrap();
                let ds = nth_weekday_days(cur, steps, start, n, wd).unwrap();
                assert(ds =~= here + rest);
                assert forall|i: int| 0 <= i < ds.len() implies weekday_index(#[trigger] ds[i]) == wd
                    && ds[i] >= start by {
                    if i >= here.len() {
                        assert(ds[i] == rest[i - here.len()]);
                    }
                }
            },
        }
    }
}

/// The first day of the month of `day`.
pub open spec fn month_start(day: int) -> int {
    day_number(year_of(day), month_of(day), 1)
}

/// How many months after month `m` the month of `day` comes, from 0 to 11.
pub open spec fn month_offset(day: int, m: int) -> int {
    if month_of(day) >= m { month_of(day) - m } else { month_of(day) - m + 12 }
}

/// The dates of a weekday rule rise strictly, each falls in its own month
/// (counted from the month of `cur`), and none comes before the `n`-th week
/// of the month of `cur`.
pub proof fn lemma_nth_weekday_days_rising(cur: int, steps: nat, start: int, n: int, wd: int)
    requires
        0 <= wd < 7,
        n >= 0,
        steps <= 12,
        nth_weekday_days(cur, steps, start, n, wd) is Some,
    ensures
        forall|i: int|
            0 <= i < nth_weekday_days(cur, steps, start, n, wd).unwrap().len() ==> #[trigger] nth_weekday_days(
                cur,
                steps,
                start,
                n,
                wd,
            ).unwrap()[i] >= month_start(cur) + 7 * (n - 1),
        forall|i: int|
            0 <= i < nth_weekday_days(cur, steps, start, n, wd).unwrap().len() ==> 0 <= month_offset(
                #[trigger] nth_weekday_days(cur, steps, start, n, wd).unwrap()[i],
                month_of(cur),
            ) < steps,
        forall|i: int, j: int|
            0 <= i < j < nth_weekday_days(cur, steps, start, n, wd).unwrap().len() ==> #[trigger] nth_weekday_days(
                cur,
                steps,
                start,
                n,
                wd,
            ).unwrap()[i] < #[trigger] nth_weekday_days(cur, steps, start, n, wd).unwrap()[j] && month_offset(
                nth_weekday_days(cur, steps, start, n, wd).unwrap()[i],
                month_of(cur),
            ) < month_offset(nth_weekday_days(cur, steps, start, n, wd).unwrap()[j], month_of(cur)),
    decreases steps,
{
    let ds = nth_weekday_days(cur, steps, start, n, wd).unwrap();
    if steps > 0 {
        lemma_civil_of(cur);
        let here = nth_weekday_in_month(cur, start, n, wd).unwrap();
        assert(here.len() <= 1);
        if here.len() == 1 {
            let first = day_from_ymd(year_of(cur), month_of(cur), 1).unwrap();
            assert(first == month_start(cur));
            lemma_weekday_of_target(first, wd, n - 1);
            assert(here[0] <= first + 6 + 7 * (n - 1));
            assert(here[0] >= first + 7 * (n - 1));
            assert(month_offset(here[0], month_of(cur)) == 0);
        }
        match months_after(cur, 1) {
            None => {
                assert(ds =~= here);
            },
            Some(next) => {
                lemma_nth_weekday_days_rising(next, (steps - 1) as nat, start, n, wd);
                lemma_one_month_after(cur);
                let rest = nth_weekday_days(next, (steps - 1) as nat, start, n, wd).unwrap();
                assert(ds =~= here + rest);
                assert(month_start(next) >= month_start(cur) + 28);
                assert forall|i: int| 0 <= i < rest.len() implies month_offset(#[trigger] rest[i], month_of(cur))
                    == month_offset(rest[i], month_of(next)) + 1 && rest[i] >= month_start(cur) + 28 + 7 * (n - 1) by {
                    lemma_civil_of(rest[i]);
                }
                assert forall|i: int| 0 <= i < ds.len() implies #[trigger] ds[i] >= month_start(cur) + 7 * (n - 1)
                    && 0 <= month_offset(ds[i], month_of(cur)) < steps by {
                    if i >= here.len() {
                        assert(ds[i] == rest[i - here.len()]);
                    }
                }
                assert forall|i: int, j: int| 0 <= i < j < ds.len() implies #[trigger] ds[i] < #[trigger] ds[j]
                    && month_offset(ds[i], month_of(cur)) < month_offset(ds[j], month_of(cur)) by {
                    assert(ds[j] == rest[j - here.len()]);
                    if i >= here.len() {
                        assert(ds[i] == rest[i - here.len()]);
                    }
                }
            },
        }
    }
}

/// A single-date rule (`none`, or no rule) gives exactly the start text.
pub proof fn law_once_rule_gives_start(start: Seq<char>, rule: Seq<char>)
    requires
        rule == "none"@ || rule.len() == 0,
    ensures
        recurring_dates(start, rule) == Some(seq![start]),
{
}

/// A rule of a kind the generator does not know gives exactly the start text,
/// where the start date lies a year before the end of the calendar.
pub proof fn law_unknown_rule_gives_start(start: Seq<char>, rule: Seq<char>)
    requires
        rule != "none"@,
        rule.len() > 0,
        split_on(rule, ':')[0] != "days"@,
        split_on(rule, ':')[0] != "months"@,
        split_on(rule, ':')[0] != "nth"@,
        start_day(start) + 365 <= MAX_DAY,
    ensures
        recurring_dates(start, rule) == Some(seq![start]),
{
}

/// `days:K` with `K > 0` gives one date every `K` days for a year, start date
/// included: `365 / K + 1` dates, the `i`-th being `i * K` days after the start.
pub proof fn law_day_rule_steps(start: Seq<char>, rule: Seq<char>, k: int)
    requires
        !is_once_rule(rule),
        split_on(rule, ':').len() >= 2,
        split_on(rule, ':')[0] == "days"@,
        parsed_i64(split_on(rule, ':')[1]) == Some(k),
        k > 0,
        recurring_dates(start, rule) is Some,
    ensures
        recurring_dates(start, rule).unwrap().len() == 365int / k + 1,
        forall|i: int|
            0 <= i < recurring_dates(start, rule).unwrap().len() ==> #[trigger] recurring_dates(
                start,
                rule,
            ).unwrap()[i] == formatted_ymd(start_day(start) + i * k),
{
    reveal_strlit("days");
    let s = start_day(start);
    lemma_split_nonempty(rule, ':');
    assert(s + 365 <= MAX_DAY);
    assert(is_known_kind(split_on(rule, ':')[0]));
    lemma_every_k_days_shape(s, s + 365, k);
}

/// `months:M` gives dates that begin at the start date, rise strictly, and stay
/// within a year of it.
pub proof fn law_month_rule_within_year(start: Seq<char>, rule: Seq<char>)
    requires
        !is_once_rule(rule),
        split_on(rule, ':')[0] == "months"@,
        recurring_dates(start, rule) is Some,
    ensures
        generated_days(start_day(start), split_on(rule, ':')) is Some,
        ({
            let ds = generated_days(start_day(start), split_on(rule, ':')).unwrap();
            &&& ds.len() > 0 ==> ds[0] == start_day(start)
            &&& forall|i: int|
                0 <= i < ds.len() ==> start_day(start) <= #[trigger] ds[i] <= start_day(start) + 365
            &&& forall|i: int, j: int| 0 <= i < j < ds.len() ==> #[trigger] ds[i] < #[trigger] ds[j]
        }),
{
    reveal_strlit("days");
    reveal_strlit("months");
    let s = start_day(start);
    let parts = split_on(rule, ':');
    lemma_split_nonempty(rule, ':');
    assert(s + 365 <= MAX_DAY);
    assert(is_known_kind(parts[0]));
    assert("months"@.len() == 6 && "days"@.len() == 4);
    assert(parts[0] != "days"@);
    assert(generated_days(s, parts) is Some);
    assert(parts.len() >= 2);
    match parsed_u32(parts[1]) {
        None => {},
        Some(m) => {
            lemma_every_m_months_shape(s, s + 365, m);
        },
    }
}

/// `nth:N:Day` gives at most twelve dates, each on the named weekday (`Sun`
/// and unknown names counting as Monday) and none before the start date; the
/// dates rise strictly and no two fall in the same calendar month.
pub proof fn law_weekday_rule_on_weekday(start: Seq<char>, rule: Seq<char>)
    requires
        !is_once_rule(rule),
        split_on(rule, ':')[0] == "nth"@,
        split_on(rule, ':').len() == 3,
        recurring_dates(start, rule) is Some,
    ensures
        generated_days(start_day(start), split_on(rule, ':')) is Some,
        ({
            let ds = generated_days(start_day(start), split_on(rule, ':')).unwrap();
            &&& ds.len() <= 12
            &&& forall|i: int|
                0 <= i < ds.len() ==> weekday_index(#[trigger] ds[i]) == weekday_code(
                    split_on(rule, ':')[2],
                ) && ds[i] >= start_day(start)
            &&& forall|i: int, j: int|
                0 <= i < j < ds.len() ==> #[trigger] ds[i] < #[trigger] ds[j] && month_of(ds[i]) != month_of(ds[j])
        }),
{
    reveal_strlit("days");
    reveal_strlit("months");
    reveal_strlit("nth");
    let s = start_day(start);
    let parts = split_on(rule, ':');
    lemma_split_nonempty(rule, ':');
    assert(s + 365 <= MAX_DAY);
    assert(is_known_kind(parts[0]));
    assert("months"@.len() == 6 && "days"@.len() == 4 && "nth"@.len() == 3);
    assert(parts[0] != "days"@ && parts[0] != "months"@);
    assert(generated_days(s, parts) is Some);
    lemma_parsed_u32_nonneg(parts[1]);
    let n = match parsed_u32(parts[1]) {
        Some(v) => v,
        None => 1,
    };
    lemma_nth_weekday_days_shape(s, 12, s, n, weekday_code(parts[2]));
    lemma_nth_weekday_days_rising(s, 12, s, n, weekday_code(parts[2]));
}


/// The weekday names of a rule: `Mon` to `Sat` are 0 to 5 (Monday being 0),
/// and `Sun` counts as Monday.
pub proof fn lemma_weekday_code_names()
    ensures
        weekday_code("Mon"@) == 0,
        weekday_code("Tue"@) == 1,
        weekday_code("Wed"@) == 2,
        weekday_code("Thu"@) == 3,
        weekday_code("Fri"@) == 4,
        weekday_code("Sat"@) == 5,
        weekday_code("Sun"@) == 0,
{
    reveal_strlit("Mon");
    reveal_strlit("Tue");
    reveal_strlit("Wed");
    reveal_strlit("Thu");
    reveal_strlit("Fri");
    reveal_strlit("Sat");
    reveal_strlit("Sun");
    assert("Mon"@[0] != "Tue"@[0] && "Mon"@[0] != "Wed"@[0] && "Mon"@[0] != "Thu"@[0]);
    assert("Mon"@[0] != "Fri"@[0] && "Mon"@[0] != "Sat"@[0]);
    assert("Wed"@[0] != "Tue"@[0]);
    assert("Thu"@[1] != "Tue"@[1] && "Thu"@[0] != "Wed"@[0]);
    assert("Fri"@[0] != "Tue"@[0] && "Fri"@[0] != "Wed"@[0] && "Fri"@[0] != "Thu"@[0]);
    assert("Sat"@[0] != "Tue"@[0] && "Sat"@[0] != "Wed"@[0] && "Sat"@[0] != "Thu"@[0] && "Sat"@[0] != "Fri"@[0]);
    assert("Sun"@[0] != "Tue"@[0] && "Sun"@[0] != "Wed"@[0] && "Sun"@[0] != "Thu"@[0] && "Sun"@[0] != "Fri"@[0]);
    assert("Sun"@[1] != "Sat"@[1]);
}

/// Every date of `nth:N:Day` falls on the day the name denotes: `Mon` on
/// Mondays (weekday 0), `Tue` on Tuesdays (1), `Wed` on Wednesdays (2), `Thu`
/// on Thursdays (3), `Fri` on Fridays (4), `Sat` on Saturdays (5); `Sun` and
/// unknown names on Mondays.
pub proof fn law_weekday_rule_names(start: Seq<char>, rule: Seq<char>)
    requires
        !is_once_rule(rule),
        split_on(rule, ':')[0] == "nth"@,
        split_on(rule, ':').len() == 3,
        recurring_dates(start, rule) is Some,
    ensures
        generated_days(start_day(start), split_on(rule, ':')) is Some,
        ({
            let ds = generated_days(start_day(start), split_on(rule, ':')).unwrap();
            let name = split_on(rule, ':')[2];
            &&& name == "Mon"@ ==> forall|i: int| 0 <= i < ds.len() ==> weekday_index(#[trigger] ds[i]) == 0
            &&& name == "Tue"@ ==> forall|i: int| 0 <= i < ds.len() ==> weekday_index(#[trigger] ds[i]) == 1
            &&& name == "Wed"@ ==> forall|i: int| 0 <= i < ds.len() ==> weekday_index(#[trigger] ds[i]) == 2
            &&& name == "Thu"@ ==> forall|i: int| 0 <= i < ds.len() ==> weekday_index(#[trigger] ds[i]) == 3
            &&& name == "Fri"@ ==> forall|i: int| 0 <= i < ds.len() ==> weekday_index(#[trigger] ds[i]) == 4
            &&& name == "Sat"@ ==> forall|i: int| 0 <= i < ds.len() ==> weekday_index(#[trigger] ds[i]) == 5
            &&& name == "Sun"@ ==> forall|i: int| 0 <= i < ds.len() ==> weekday_index(#[trigger] ds[i]) == 0
            &&& (name != "Mon"@ && name != "Tue"@ && name != "Wed"@ && name != "Thu"@ && name != "Fri"@
                && name != "Sat"@) ==> forall|i: int| 0 <= i < ds.len() ==> weekday_index(#[trigger] ds[i]) == 0
        }),
{
    law_weekday_rule_on_weekday(start, rule);
    lemma_weekday_code_names();
}

/// Stepping `k > 0` days from `cur` to `limit` succeeds where the first step
/// past `limit` stays within the calendar.
pub proof fn lemma_every_k_days_some(cur: int, limit: int, k: int)
    requires
        k > 0,
        cur <= limit,
        cur + k * ((limit - cur) / k + 1) <= MAX_DAY,
    ensures
        every_k_days(cur, limit, k) is Some,
    decreases limit - cur + 1,
{
    if cur + k > limit {
        assert((limit - cur) / k == 0) by (nonlinear_arith)
            requires 0 <= limit - cur < k;
        assert(k * (0int + 1) == k) by (nonlinear_arith);
    } else {
        assert((limit - cur - k) / k + 1 == (limit - cur) / k) by (nonlinear_arith)
            requires limit - cur >= k, k > 0;
        assert(k * ((limit - cur) / k + 1) >= k) by (nonlinear_arith)
            requires k > 0, limit - cur >= 0;
        let q = (limit - cur) / k;
        assert((limit - (cur + k)) / k + 1 == q);
        assert(cur + k + k * ((limit - (cur + k)) / k + 1) == cur + k * ((limit - cur) / k + 1)) by (nonlinear_arith)
            requires (limit - (cur + k)) / k + 1 == q, q == (limit - cur) / k;
        lemma_every_k_days_some(cur + k, limit, k);
    }
}

/// `days:K` with `K >= 1` succeeds wherever the first step past one year from
/// the start stays within the calendar, and then gives `365 / K + 1` dates, the
/// `i`-th being `i * K` days after the start.
pub proof fn law_day_rule_succeeds(start: Seq<char>, rule: Seq<char>, k: int)
    requires
        !is_once_rule(rule),
        split_on(rule, ':').len() >= 2,
        split_on(rule, ':')[0] == "days"@,
        parsed_i64(split_on(rule, ':')[1]) == Some(k),
        k >= 1,
        start_day(start) + k * (365int / k + 1) <= MAX_DAY,
    ensures
        recurring_dates(start, rule) is Some,
        generated_days(start_day(start), split_on(rule, ':')) is Some,
        generated_days(start_day(start), split_on(rule, ':')).unwrap().len() == 365int / k + 1,
        forall|i: int|
            0 <= i < generated_days(start_day(start), split_on(rule, ':')).unwrap().len()
                ==> #[trigger] generated_days(start_day(start), split_on(rule, ':')).unwrap()[i]
                == start_day(start) + i * k,
{
    reveal_strlit("days");
    reveal_strlit("months");
    reveal_strlit("nth");
    let s = start_day(start);
    assert(k * (365int / k + 1) >= 365) by (nonlinear_arith)
        requires k >= 1;
    lemma_split_nonempty(rule, ':');
    assert(is_known_kind(split_on(rule, ':')[0]));
    assert(((s + 365) - s) / k == 365int / k);
    lemma_every_k_days_some(s, s + 365, k);
    lemma_every_k_days_shape(s, s + 365, k);
}

/// Stepping `m > 0` months from `cur` to `limit` always succeeds: it starts at
/// `cur`, each next date is `m` months after the one before, every date stays
/// within `limit`, and the step after the last leaves the calendar or passes
/// `limit`.
pub proof fn lemma_every_m_months_chain(cur: int, limit: int, m: int)
    requires
        m > 0,
        cur <= limit,
    ensures
        every_m_months(cur, limit, m) is Some,
        ({
            let ds = every_m_months(cur, limit, m).unwrap();
            &&& ds.len() >= 1
            &&& ds[0] == cur
            &&& forall|i: int| 0 <= i < ds.len() ==> #[trigger] ds[i] <= limit
            &&& forall|i: int| 0 <= i < ds.len() - 1 ==> months_after(#[trigger] ds[i], m) == Some(ds[i + 1])
            &&& match months_after(ds[ds.len() - 1], m) {
                None => true,
                Some(after) => after > limit,
            }
        }),
    decreases limit - cur + 1,
{
    match months_after(cur, m) {
        None => {},
        Some(next) => {
            lemma_months_after_later(cur, m);
            if next <= limit {
                lemma_every_m_months_chain(next, limit, m);
                let rest = every_m_months(next, limit, m).unwrap();
                let ds = every_m_months(cur, limit, m).unwrap();
                assert(ds =~= seq![cur] + rest);
                assert forall|i: int| 0 <= i < ds.len() - 1 implies months_after(#[trigger] ds[i], m) == Some(ds[i + 1]) by {
                    if i > 0 {
                        assert(ds[i] == rest[i - 1] && ds[i + 1] == rest[i]);
                    }
                }
                assert forall|i: int| 0 <= i < ds.len() implies #[trigger] ds[i] <= limit by {
                    if i > 0 {
                        assert(ds[i] == rest[i - 1]);
                    }
                }
                assert(ds[ds.len() - 1] == rest[rest.len() - 1]);
            } else {
                assert(every_m_months(next, limit, m) == Some(Seq::<int>::empty()));
                assert(every_m_months(cur, limit, m).unwrap() =~= seq![cur]);
            }
        },
    }
}

/// `months:M` with `M > 0` always succeeds where the start date lies a year
/// before the end of the calendar: its first date is the start, each next date
/// is `M` months after the one before (chrono's `checked_add_months`), all lie
/// within a year of the start, and the step after the last passes that year or
/// leaves the calendar.
pub proof fn law_month_rule_succeeds(start: Seq<char>, rule: Seq<char>, m: int)
    requires
        !is_once_rule(rule),
        split_on(rule, ':').len() >= 2,
        split_on(rule, ':')[0] == "months"@,
        parsed_u32(split_on(rule, ':')[1]) == Some(m),
        m > 0,
        start_day(start) + 365 <= MAX_DAY,
    ensures
        recurring_dates(start, rule) is Some,
        generated_days(start_day(start), split_on(rule, ':')) is Some,
        ({
            let ds = generated_days(start_day(start), split_on(rule, ':')).unwrap();
            let s = start_day(start);
            &&& ds.len() >= 1
            &&& ds[0] == s
            &&& forall|i: int| 0 <= i < ds.len() ==> #[trigger] ds[i] <= s + 365
            &&& forall|i: int| 0 <= i < ds.len() - 1 ==> months_after(#[trigger] ds[i], m) == Some(ds[i + 1])
            &&& match months_after(ds[ds.len() - 1], m) {
                None => true,
                Some(after) => after > s + 365,
            }
        }),
{
    reveal_strlit("days");
    reveal_strlit("months");
    reveal_strlit("nth");
    let s = start_day(start);
    lemma_split_nonempty(rule, ':');
    assert("months"@.len() == 6 && "days"@.len() == 4);
    assert(split_on(rule, ':')[0] != "days"@);
    assert(is_known_kind(split_on(rule, ':')[0]));
    lemma_every_m_months_chain(s, s + 365, m);
}

/// With `n` from 1 to 5, every date of the weekday rule lies in the `n`-th
/// week of its month: its day of the month is from `7 * (n - 1) + 1` to
/// `7 * n`.
pub proof fn lemma_nth_week_of_month(cur: int, steps: nat, start: int, n: int, wd: int)
    requires
        0 <= wd < 7,
        1 <= n <= 5,
        nth_weekday_days(cur, steps, start, n, wd) is Some,
    ensures
        forall|i: int|
            0 <= i < nth_weekday_days(cur, steps, start, n, wd).unwrap().len() ==> 7 * (n - 1)
                < day_of_month(#[trigger] nth_weekday_days(cur, steps, start, n, wd).unwrap()[i]) <= 7 * n,
    decreases steps,
{
    if steps > 0 {
        let here = nth_weekday_in_month(cur, start, n, wd).unwrap();
        if here.len() == 1 {
            let first = day_from_ymd(year_of(cur), month_of(cur), 1).unwrap();
            lemma_weekday_of_target(first, wd, n - 1);
            let j = here[0] - first;
            lemma_days_around_month(cur, j);
        }
        assert(here.len() <= 1);
        match months_after(cur, 1) {
            None => {},
            Some(next) => {
                lemma_nth_week_of_month(next, (steps - 1) as nat, start, n, wd);
                let rest = nth_weekday_days(next, (steps - 1) as nat, start, n, wd).unwrap();
                let ds = nth_weekday_days(cur, steps, start, n, wd).unwrap();
                assert(ds =~= here + rest);
                assert forall|i: int| 0 <= i < ds.len() implies 7 * (n - 1) < day_of_month(#[trigger] ds[i]) <= 7 * n by {
                    if i >= here.len() {
                        assert(ds[i] == rest[i - here.len()]);
                    }
                }
            },
        }
    }
}

/// With `n` from 1 to 4 (every month has an `n`-th weekday), starting in a
/// month after `start`, each of `steps` months contributes one date.
pub proof fn lemma_nth_all_months(cur: int, steps: nat, start: int, n: int, wd: int)
    requires
        0 <= wd < 7,
        1 <= n <= 4,
        1 <= steps <= 12,
        is_valid_day(cur),
        month_start(cur) > start,
        month_start(cur) + 31 * steps <= MAX_DAY,
    ensures
        nth_weekday_days(cur, steps, start, n, wd) is Some,
        nth_weekday_days(cur, steps, start, n, wd).unwrap().len() == steps,
    decreases steps,
{
    lemma_year_range(cur);
    lemma_civil_of(cur);
    let first = month_start(cur);
    assert(day_from_ymd(year_of(cur), month_of(cur), 1) == Some(first));
    lemma_weekday_of_target(first, wd, n - 1);
    let fin = first_weekday_from(first, wd) + (n - 1) * 7;
    lemma_days_around_month(cur, fin - first);
    assert(month_of(fin) == month_of(cur));
    assert(nth_weekday_in_month(cur, start, n, wd) == Some(seq![fin]));
    if steps > 1 {
        lemma_days_around_month(cur, 0);
        lemma_month_length(year_of(cur), month_of(cur));
        lemma_one_month_after_exists(cur);
        lemma_one_month_after(cur);
        let next = months_after(cur, 1).unwrap();
        assert(is_valid_day(next)) by {
            lemma_civil_of(next);
            lemma_year_range(next);
            let nc = civil_of(next);
            assert(next == day_number(nc.0, nc.1, nc.2));
            lemma_months_after_later(cur, 1);
            lemma_days_around_month(next, 0);
        }
        lemma_nth_all_months(next, (steps - 1) as nat, start, n, wd);
        let rest = nth_weekday_days(next, (steps - 1) as nat, start, n, wd).unwrap();
        assert(nth_weekday_days(cur, steps, start, n, wd) == Some(seq![fin] + rest));
    } else {
        match months_after(cur, 1) {
            None => {},
            Some(next) => {
                assert(nth_weekday_days(next, 0, start, n, wd) == Some(Seq::<int>::empty()));
                assert(seq![fin] + Seq::<int>::empty() =~= seq![fin]);
            },
        }
    }
}

/// `nth:N:Day` with `N` from 1 to 4 and a start date more than a year before
/// the end of the calendar always succeeds, and gives the `N`-th weekday of
/// each of the twelve months from the start month: twelve dates, or eleven
/// when the start month's falls before the start date. Each lies in the
/// `N`-th week of its month.
pub proof fn law_weekday_rule_every_month(start: Seq<char>, rule: Seq<char>)
    requires
        !is_once_rule(rule),
        split_on(rule, ':')[0] == "nth"@,
        split_on(rule, ':').len() == 3,
        1 <= (match parsed_u32(split_on(rule, ':')[1]) {
            Some(v) => v,
            None => 1,
        }) <= 4,
        is_valid_day(start_day(start)),
        start_day(start) + 400 <= MAX_DAY,
    ensures
        recurring_dates(start, rule) is Some,
        generated_days(start_day(start), split_on(rule, ':')) is Some,
        ({
            let ds = generated_days(start_day(start), split_on(rule, ':')).unwrap();
            let s = start_day(start);
            let n = match parsed_u32(split_on(rule, ':')[1]) {
                Some(v) => v,
                None => 1,
            };
            let f0 = first_weekday_from(day_number(year_of(s), month_of(s), 1), weekday_code(split_on(rule, ':')[2]))
                + 7 * (n - 1);
            &&& ds.len() == (if f0 >= s { 12int } else { 11int })
            &&& forall|i: int| 0 <= i < ds.len() ==> 7 * (n - 1) < day_of_month(#[trigger] ds[i]) <= 7 * n
        }),
{
    reveal_strlit("days");
    reveal_strlit("months");
    reveal_strlit("nth");
    let s = start_day(start);
    let parts = split_on(rule, ':');
    lemma_split_nonempty(rule, ':');
    assert("months"@.len() == 6 && "days"@.len() == 4 && "nth"@.len() == 3);
    assert(parts[0] != "days"@ && parts[0] != "months"@);
    assert(is_known_kind(parts[0]));
    let n = match parsed_u32(parts[1]) {
        Some(v) => v,
        None => 1,
    };
    let wd = weekday_code(parts[2]);
    assert(generated_days(s, parts) == nth_weekday_days(s, 12, s, n, wd));
    lemma_year_range(s);
    lemma_civil_of(s);
    let first = month_start(s);
    assert(day_from_ymd(year_of(s), month_of(s), 1) == Some(first));
    lemma_weekday_of_target(first, wd, n - 1);
    let fin = first_weekday_from(first, wd) + (n - 1) * 7;
    lemma_days_around_month(s, fin - first);
    let here = if fin >= s { seq![fin] } else { Seq::<int>::empty() };
    assert(nth_weekday_in_month(s, s, n, wd) == Some(here));
    lemma_days_around_month(s, 0);
    lemma_month_length(year_of(s), month_of(s));
    lemma_one_month_after_exists(s);
    lemma_one_month_after(s);
    let next = months_after(s, 1).unwrap();
    assert(is_valid_day(next)) by {
        lemma_civil_of(next);
        lemma_year_range(next);
        lemma_months_after_later(s, 1);
        lemma_days_around_month(next, 0);
    }
    lemma_nth_all_months(next, 11, s, n, wd);
    let rest = nth_weekday_days(next, 11, s, n, wd).unwrap();
    assert(nth_weekday_days(s, 12, s, n, wd) == Some(here + rest));
    lemma_nth_week_of_month(s, 12, s, n, wd);
}

/// With `N` from 1 to 5, every date of `nth:N:Day` is the `N`-th such weekday
/// of its month: its day of the month lies in the `N`-th week.
pub proof fn law_weekday_rule_nth_week(start: Seq<char>, rule: Seq<char>)
    requires
        !is_once_rule(rule),
        split_on(rule, ':')[0] == "nth"@,
        split_on(rule, ':').len() == 3,
        1 <= (match parsed_u32(split_on(rule, ':')[1]) {
            Some(v) => v,
            None => 1,
        }) <= 5,
        recurring_dates(start, rule) is Some,
    ensures
        generated_days(start_day(start), split_on(rule, ':')) is Some,
        ({
            let ds = generated_days(start_day(start), split_on(rule, ':')).unwrap();
            let n = match parsed_u32(split_on(rule, ':')[1]) {
                Some(v) => v,
                None => 1,
            };
            forall|i: int| 0 <= i < ds.len() ==> 7 * (n - 1) < day_of_month(#[trigger] ds[i]) <= 7 * n
        }),
{
    reveal_strlit("days");
    reveal_strlit("months");
    reveal_strlit("nth");
    let s = start_day(start);
    let parts = split_on(rule, ':');
    lemma_split_nonempty(rule, ':');
    assert("months"@.len() == 6 && "days"@.len() == 4 && "nth"@.len() == 3);
    assert(parts[0] != "days"@ && parts[0] != "months"@);
    assert(is_known_kind(parts[0]));
    let n = match parsed_u32(parts[1]) {
        Some(v) => v,
        None => 1,
    };
    assert(s + 365 <= MAX_DAY);
    assert(generated_days(s, parts) is Some);
    lemma_nth_week_of_month(s, 12, s, n, weekday_code(parts[2]));
}

/// A start text that does not read as a date counts as January 1, 1970.
pub proof fn law_unreadable_start_is_epoch(start: Seq<char>)
    requires
        parsed_ymd(start) is None,
    ensures
        start_day(start) == day_number(1970, 1, 1),
        civil_of(start_day(start)) == (1970int, 1int, 1int),
{
    assert(day_number(1970, 1, 1) == EPOCH_DAY);
    lemma_civil_of_day_number(1970, 1, 1);
}

/// An interval that does not read as a number gives no dates; a `days` or
/// `months` rule with no interval at all, and a `nth` rule without exactly
/// two fields after it, give none either (the first two fail, the last gives
/// an empty list).
pub proof fn law_rule_fields(start: Seq<char>, rule: Seq<char>)
    requires
        rule != "none"@,
        rule.len() > 0,
        start_day(start) + 365 <= MAX_DAY,
    ensures
        split_on(rule, ':')[0] == "days"@ && split_on(rule, ':').len() < 2 ==> recurring_dates(start, rule)
            is None,
        split_on(rule, ':')[0] == "months"@ && split_on(rule, ':').len() < 2 ==> recurring_dates(start, rule)
            is None,
        split_on(rule, ':')[0] == "days"@ && split_on(rule, ':').len() >= 2 && parsed_i64(split_on(rule, ':')[1])
            is None ==> recurring_dates(start, rule) == Some(Seq::<Seq<char>>::empty()),
        split_on(rule, ':')[0] == "months"@ && split_on(rule, ':').len() >= 2 && parsed_u32(
            split_on(rule, ':')[1],
        ) is None ==> recurring_dates(start, rule) == Some(Seq::<Seq<char>>::empty()),
        split_on(rule, ':')[0] == "nth"@ && split_on(rule, ':').len() != 3 ==> recurring_dates(start, rule)
            == Some(Seq::<Seq<char>>::empty()),
{
    reveal_strlit("days");
    reveal_strlit("months");
    reveal_strlit("nth");
    reveal_strlit("none");
    lemma_split_nonempty(rule, ':');
    assert("months"@.len() == 6 && "days"@.len() == 4 && "nth"@.len() == 3);
    assert(Seq::<int>::empty().map_values(|d: int| formatted_ymd(d)) =~= Seq::<Seq<char>>::empty());
}
} // verus!
