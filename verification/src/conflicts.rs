//! Meeting rows, clock-time parsing and pairwise conflict detection.
use vstd::prelude::*;
use crate::weekly_bitmap::{block_minutes, lemma_half_open_overlap};
use crate::text::{chars_of, parse_i32, spec_parse_i32, spec_to_uppercase, string_from_chars, to_uppercase, trim, trim_bounds, trim_string};

verus! {

/// One meeting row of a section (one day, one time range).
#[derive(Debug, Clone)]
pub struct MeetingRecord {
    pub term: String,
    pub term_label: String,
    pub subject_code: String,
    pub course_code: String,
    pub course_ref: String,
    pub section: String,
    pub day_code: String,
    pub day_name: String,
    pub start_time: String,
    pub end_time: String,
    pub source_url: String,
}

/// The section key `"{course}-{section}"`.
pub open spec fn key_of(course: Seq<char>, section: Seq<char>) -> Seq<char> {
    course + seq!['-'] + section
}

impl MeetingRecord {
    /// The key of this row's section.
    pub open spec fn spec_key(&self) -> Seq<char> {
        key_of(self.course_code@, self.section@)
    }

    /// The section key `"{course_code}-{section}"`.
    pub fn section_key(&self) -> (r: String)
        ensures
            r@ == self.spec_key(),
    {
        let mut k = self.course_code.clone();
        k.append("-");
        k.append(self.section.as_str());
        proof {
            reveal_strlit("-");
            assert(k@ =~= key_of(self.course_code@, self.section@));
        }
        k
    }
}

/// Index of the first `':'` in `s`, or `s.len()` when there is none.
pub open spec fn colon_index(s: Seq<char>) -> int
    decreases s.len(),
{
    if s.len() == 0 {
        0
    } else if s[0] == ':' {
        0
    } else {
        1 + colon_index(s.drop_first())
    }
}

/// The text before the first `':'` (the first item of `split(':')`).
pub open spec fn before_colon(s: Seq<char>) -> Seq<char> {
    s.take(colon_index(s))
}

/// The text after the first `':'` (the rest of `split(':')`), when `s` has one.
pub open spec fn after_colon(s: Seq<char>) -> Option<Seq<char>> {
    if colon_index(s) < s.len() {
        Some(s.skip(colon_index(s) + 1))
    } else {
        None
    }
}

/// Minutes after midnight that a normalized (trimmed, uppercase) clock time such as `"08:50AM"`
/// stands for, or the error message that rejects it.
pub open spec fn spec_parse_clock(v: Seq<char>) -> Result<i32, Seq<char>> {
    let n = v.len();
    let am = n >= 2 && v[n - 2] == 'A' && v[n - 1] == 'M';
    let pm = n >= 2 && v[n - 2] == 'P' && v[n - 1] == 'M';
    if !am && !pm {
        Err("invalid time suffix: "@ + v)
    } else {
        let hm = trim(v.take(n - 2));
        match spec_parse_i32(before_colon(hm)) {
            None => Err("invalid hour in "@ + v),
            Some(hour) => match after_colon(hm) {
                None => Err("missing minute in "@ + v),
                Some(rest) => match spec_parse_i32(before_colon(rest)) {
                    None => Err("invalid minute in "@ + v),
                    Some(minute) => if !(1 <= hour <= 12) || !(0 <= minute <= 59) {
                        Err("time out of range: "@ + v)
                    } else {
                        let h24: int = if am {
                            (hour % 12) as int
                        } else {
                            hour % 12 + 12
                        };
                        Ok((h24 * 60 + minute) as i32)
                    },
                },
            },
        }
    }
}

/// What `parse_time_to_minutes` gives for the text `s`: the clock time after trimming and
/// uppercasing.
pub open spec fn spec_time_minutes(s: Seq<char>) -> Result<i32, Seq<char>> {
    spec_parse_clock(spec_to_uppercase(trim(s)))
}

/// `r` is the result `expected` with its message as a `String`.
pub open spec fn result_matches(r: Result<i32, String>, expected: Result<i32, Seq<char>>) -> bool {
    match r {
        Ok(m) => expected == Ok::<i32, Seq<char>>(m),
        Err(e) => expected == Err::<i32, Seq<char>>(e@),
    }
}

proof fn lemma_colon_index(s: Seq<char>, i: int)
    requires
        0 <= i <= s.len(),
        forall|k: int| 0 <= k < i ==> s[k] != ':',
        i == s.len() || s[i] == ':',
    ensures
        colon_index(s) == i,
    decreases i,
{
    if i > 0 {
        lemma_colon_index(s.drop_first(), i - 1);
    }
}

/// The message `prefix` followed by `value`.
fn message(prefix: &str, value: &str) -> (r: String)
    ensures
        r@ == prefix@ + value@,
{
    let mut m = String::from_str(prefix);
    m.append(value);
    m
}

/// First index `>= lo` and `< hi` holding `':'`, or `hi`.
fn find_colon(v: &Vec<char>, lo: usize, hi: usize) -> (r: usize)
    requires
        lo <= hi <= v@.len(),
    ensures
        lo <= r <= hi,
        colon_index(v@.subrange(lo as int, hi as int)) == r - lo,
{
    let mut c = lo;
    while c < hi && v[c] != ':'
        invariant
            lo <= c <= hi <= v@.len(),
            forall|k: int| lo <= k < c ==> v@[k] != ':',
        decreases hi - c,
    {
        c = c + 1;
    }
    proof {
        lemma_colon_index(v@.subrange(lo as int, hi as int), c - lo);
    }
    c
}

/// Parses a normalized (trimmed, uppercase) clock time such as `"08:50AM"` or `"12:10PM"`
/// into minutes after midnight; the error names what is wrong with `value`.
pub fn parse_clock(value: &str) -> (r: Result<i32, String>)
    ensures
        result_matches(r, spec_parse_clock(value@)),
{
    let v = chars_of(value);
    let n = v.len();
    let am = n >= 2 && v[n - 2] == 'A' && v[n - 1] == 'M';
    let pm = n >= 2 && v[n - 2] == 'P' && v[n - 1] == 'M';
    if !am && !pm {
        return Err(message("invalid time suffix: ", value));
    }
    let (a, b) = trim_bounds(&v, 0, n - 2);
    let ghost hm = v@.subrange(a as int, b as int);
    proof {
        assert(v@.subrange(0, n - 2) =~= v@.take(n - 2));
    }
    let c = find_colon(&v, a, b);
    let hour_text = string_from_chars(&v, a, c);
    proof {
        assert(hour_text@ =~= before_colon(hm));
    }
    let hour = match parse_i32(hour_text.as_str()) {
        Some(h) => h,
        None => {
            return Err(message("invalid hour in ", value));
        },
    };
    if c == b {
        return Err(message("missing minute in ", value));
    }
    let d = find_colon(&v, c + 1, b);
    let minute_text = string_from_chars(&v, c + 1, d);
    proof {
        let rest = hm.skip(colon_index(hm) + 1);
        assert(rest =~= v@.subrange(c + 1, b as int));
        assert(minute_text@ =~= before_colon(rest));
    }
    let minute = match parse_i32(minute_text.as_str()) {
        Some(m) => m,
        None => {
            return Err(message("invalid minute in ", value));
        },
    };
    if hour < 1 || hour > 12 || minute < 0 || minute > 59 {
        return Err(message("time out of range: ", value));
    }
    let mut h24 = hour % 12;
    if pm && !am {
        h24 = h24 + 12;
    }
    Ok(h24 * 60 + minute)
}

/// Parses a clock time such as `" 08:50am "` into minutes after midnight: the text is trimmed
/// and uppercased first.
pub fn parse_time_to_minutes(value: &str) -> (r: Result<i32, String>)
    ensures
        result_matches(r, spec_time_minutes(value@)),
{
    let t = trim_string(value);
    let u = to_uppercase(t.as_str());
    parse_clock(u.as_str())
}

/// Two meetings of different sections that overlap on the same day.
#[derive(Debug, Clone)]
pub struct ConflictPair {
    pub day_code: String,
    pub day_name: String,
    pub left_section: String,
    pub right_section: String,
    pub left_start: String,
    pub left_end: String,
    pub right_start: String,
    pub right_end: String,
}

impl View for ConflictPair {
    type V = Seq<Seq<char>>;

    /// The fields in declaration order.
    open spec fn view(&self) -> Seq<Seq<char>> {
        seq![
            self.day_code@,
            self.day_name@,
            self.left_section@,
            self.right_section@,
            self.left_start@,
            self.left_end@,
            self.right_start@,
            self.right_end@,
        ]
    }
}

/// The conflict reported for meeting `a` (left) against meeting `b` (right).
pub open spec fn conflict_of(a: MeetingRecord, b: MeetingRecord) -> Seq<Seq<char>> {
    seq![
        a.day_code@,
        a.day_name@,
        a.spec_key(),
        b.spec_key(),
        a.start_time@,
        a.end_time@,
        b.start_time@,
        b.end_time@,
    ]
}

/// Whether `key` is one of the selected section ids.
pub open spec fn is_selected(selected: Seq<String>, key: Seq<char>) -> bool {
    exists|i: int| 0 <= i < selected.len() && (#[trigger] selected[i])@ == key
}

/// The minutes `(start, end)` of a meeting whose times both parse and whose end is after its start.
#[verifier::opaque]
pub open spec fn meeting_span(r: MeetingRecord) -> Option<(i32, i32)> {
    match (spec_time_minutes(r.start_time@), spec_time_minutes(r.end_time@)) {
        (Ok(s), Ok(e)) => if s < e {
            Some((s, e))
        } else {
            None
        },
        _ => None,
    }
}

/// The meetings among the first `n` rows that take part in conflict checks: selected, with a
/// valid span. Each entry is `(row index, start minute, end minute)`, in row order.
pub open spec fn eligible_rows(rows: Seq<MeetingRecord>, selected: Seq<String>, n: int) -> Seq<
    (usize, i32, i32),
>
    decreases n,
{
    if n <= 0 {
        seq![]
    } else {
        let prev = eligible_rows(rows, selected, n - 1);
        let r = rows[n - 1];
        if is_selected(selected, r.spec_key()) && meeting_span(r) is Some {
            let span = meeting_span(r)->0;
            prev.push(((n - 1) as usize, span.0, span.1))
        } else {
            prev
        }
    }
}

/// Day code of eligible meeting `i`.
pub open spec fn day_at(rows: Seq<MeetingRecord>, f: Seq<(usize, i32, i32)>, i: int) -> Seq<char> {
    rows[f[i].0 as int].day_code@
}

/// Eligible meetings `i` and `j` are a conflict: same day, different sections, and their
/// half-open time ranges intersect.
pub open spec fn clash(rows: Seq<MeetingRecord>, f: Seq<(usize, i32, i32)>, i: int, j: int) -> bool {
    &&& day_at(rows, f, i) == day_at(rows, f, j)
    &&& rows[f[i].0 as int].spec_key() != rows[f[j].0 as int].spec_key()
    &&& f[i].1 < f[j].2
    &&& f[j].1 < f[i].2
}

/// The distinct day codes of the first `m` eligible meetings, in order of first appearance.
pub open spec fn days_of(rows: Seq<MeetingRecord>, f: Seq<(usize, i32, i32)>, m: int) -> Seq<
    Seq<char>,
>
    decreases m,
{
    if m <= 0 {
        seq![]
    } else {
        let prev = days_of(rows, f, m - 1);
        if prev.contains(day_at(rows, f, m - 1)) {
            prev
        } else {
            prev.push(day_at(rows, f, m - 1))
        }
    }
}

/// Clashes `(i, j)` with `i < j < m` of meeting `i` on day `d`, by increasing `j`.
pub open spec fn row_pairs(
    rows: Seq<MeetingRecord>,
    f: Seq<(usize, i32, i32)>,
    d: Seq<char>,
    i: int,
    m: int,
) -> Seq<(int, int)>
    decreases m - i,
{
    if m <= i + 1 {
        seq![]
    } else {
        let prev = row_pairs(rows, f, d, i, m - 1);
        if day_at(rows, f, m - 1) == d && clash(rows, f, i, m - 1) {
            prev.push((i, m - 1))
        } else {
            prev
        }
    }
}

/// Clashes on day `d` whose first meeting is among the first `m`, by increasing `(i, j)`.
pub open spec fn day_pairs(rows: Seq<MeetingRecord>, f: Seq<(usize, i32, i32)>, d: Seq<char>, m: int) -> Seq<
    (int, int),
>
    decreases m,
{
    if m <= 0 {
        seq![]
    } else {
        let prev = day_pairs(rows, f, d, m - 1);
        if day_at(rows, f, m - 1) == d {
            prev + row_pairs(rows, f, d, m - 1, f.len() as int)
        } else {
            prev
        }
    }
}

/// Clashes of the first `t` days in `days`, day by day.
pub open spec fn all_pairs(rows: Seq<MeetingRecord>, f: Seq<(usize, i32, i32)>, days: Seq<Seq<char>>, t: int) -> Seq<
    (int, int),
>
    decreases t,
{
    if t <= 0 {
        seq![]
    } else {
        all_pairs(rows, f, days, t - 1) + day_pairs(rows, f, days[t - 1], f.len() as int)
    }
}

/// The clashing pairs of eligible meetings, grouped by day (days in order of first appearance),
/// within a day by increasing position.
pub open spec fn conflict_indices(rows: Seq<MeetingRecord>, selected: Seq<String>) -> Seq<(int, int)> {
    let f = eligible_rows(rows, selected, rows.len() as int);
    let days = days_of(rows, f, f.len() as int);
    all_pairs(rows, f, days, days.len() as int)
}

/// The conflicts that `detect_conflicts` reports for these rows and selected sections.
pub open spec fn spec_conflicts(rows: Seq<MeetingRecord>, selected: Seq<String>) -> Seq<Seq<Seq<char>>> {
    let f = eligible_rows(rows, selected, rows.len() as int);
    conflict_indices(rows, selected).map_values(
        |p: (int, int)| conflict_of(rows[f[p.0].0 as int], rows[f[p.1].0 as int]),
    )
}

/// The views of a list of conflicts.
pub open spec fn conflicts_view(v: Seq<ConflictPair>) -> Seq<Seq<Seq<char>>> {
    v.map_values(|c: ConflictPair| c@)
}

/// Whether `key` is among `selected`.
fn contains_key(selected: &[String], key: &String) -> (r: bool)
    ensures
        r == is_selected(selected@, key@),
{
    let mut i: usize = 0;
    while i < selected.len()
        invariant
            i <= selected@.len(),
            forall|k: int| 0 <= k < i ==> (#[trigger] selected@[k])@ != key@,
        decreases selected@.len() - i,
    {
        if selected[i] == *key {
            return true;
        }
        i = i + 1;
    }
    false
}

/// The eligible meetings, as `eligible_rows` describes them.
fn eligible_meetings(meetings: &[MeetingRecord], selected: &[String]) -> (f: Vec<(usize, i32, i32)>)
    ensures
        f@ == eligible_rows(meetings@, selected@, meetings@.len() as int),
        forall|i: int| 0 <= i < f@.len() ==> (#[trigger] f@[i]).0 < meetings@.len(),
{
    let mut f: Vec<(usize, i32, i32)> = Vec::new();
    let mut n: usize = 0;
    while n < meetings.len()
        invariant
            n <= meetings@.len(),
            f@ == eligible_rows(meetings@, selected@, n as int),
            forall|i: int| 0 <= i < f@.len() ==> (#[trigger] f@[i]).0 < n,
        decreases meetings@.len() - n,
    {
        proof {
            reveal(meeting_span);
        }
        let row = &meetings[n];
        let key = row.section_key();
        if contains_key(selected, &key) {
            let s = parse_time_to_minutes(row.start_time.as_str());
            let e = parse_time_to_minutes(row.end_time.as_str());
            match (s, e) {
                (Ok(s), Ok(e)) => {
                    if s < e {
                        f.push((n, s, e));
                    }
                },
                _ => {},
            }
        }
        n = n + 1;
    }
    f
}

/// The pair reported for meetings `a` (left) and `b` (right).
fn make_pair(a: &MeetingRecord, b: &MeetingRecord) -> (c: ConflictPair)
    ensures
        c@ == conflict_of(*a, *b),
{
    ConflictPair {
        day_code: a.day_code.clone(),
        day_name: a.day_name.clone(),
        left_section: a.section_key(),
        right_section: b.section_key(),
        left_start: a.start_time.clone(),
        left_end: a.end_time.clone(),
        right_start: b.start_time.clone(),
        right_end: b.end_time.clone(),
    }
}

/// The spec list of conflicts for index pairs `p`.
pub open spec fn pairs_view(rows: Seq<MeetingRecord>, f: Seq<(usize, i32, i32)>, p: Seq<(int, int)>) -> Seq<
    Seq<Seq<char>>,
> {
    p.map_values(|q: (int, int)| conflict_of(rows[f[q.0].0 as int], rows[f[q.1].0 as int]))
}

proof fn lemma_pairs_view_concat(
    rows: Seq<MeetingRecord>,
    f: Seq<(usize, i32, i32)>,
    p: Seq<(int, int)>,
    q: Seq<(int, int)>,
)
    ensures
        pairs_view(rows, f, p + q) == pairs_view(rows, f, p) + pairs_view(rows, f, q),
{
    assert(pairs_view(rows, f, p + q) =~= pairs_view(rows, f, p) + pairs_view(rows, f, q));
}

/// Appends the clashes of meeting `i` on day `d` to `out`.
fn push_row_pairs(
    meetings: &[MeetingRecord],
    f: &Vec<(usize, i32, i32)>,
    d: &String,
    i: usize,
    out: &mut Vec<ConflictPair>,
)
    requires
        i < f@.len(),
        forall|k: int| 0 <= k < f@.len() ==> (#[trigger] f@[k]).0 < meetings@.len(),
        day_at(meetings@, f@, i as int) == d@,
    ensures
        conflicts_view(final(out)@) == conflicts_view(old(out)@) + pairs_view(
            meetings@,
            f@,
            row_pairs(meetings@, f@, d@, i as int, f@.len() as int),
        ),
{
    let a = &meetings[f[i].0];
    let key_a = a.section_key();
    let n = f.len();
    let mut j = i + 1;
    proof {
        assert(pairs_view(meetings@, f@, row_pairs(meetings@, f@, d@, i as int, j as int)) =~= seq![]);
        assert(conflicts_view(out@) =~= conflicts_view(old(out)@) + seq![]);
    }
    while j < f.len()
        invariant
            i < j <= f@.len(),
            forall|k: int| 0 <= k < f@.len() ==> (#[trigger] f@[k]).0 < meetings@.len(),
            day_at(meetings@, f@, i as int) == d@,
            *a == meetings@[f@[i as int].0 as int],
            key_a@ == a.spec_key(),
            conflicts_view(out@) == conflicts_view(old(out)@) + pairs_view(
                meetings@,
                f@,
                row_pairs(meetings@, f@, d@, i as int, j as int),
            ),
        decreases f@.len() - j,
    {
        let b = &meetings[f[j].0];
        let ghost before = out@;
        if b.day_code == *d {
            let key_b = b.section_key();
            if key_a != key_b && f[i].1 < f[j].2 && f[j].1 < f[i].2 {
                out.push(make_pair(a, b));
                proof {
                    let rp = row_pairs(meetings@, f@, d@, i as int, j as int);
                    assert(row_pairs(meetings@, f@, d@, i as int, j + 1) == rp.push((i as int, j as int)));
                    assert(pairs_view(meetings@, f@, rp.push((i as int, j as int))) =~= pairs_view(
                        meetings@,
                        f@,
                        rp,
                    ).push(conflict_of(*a, *b)));
                    assert(conflicts_view(out@) =~= conflicts_view(before).push(conflict_of(*a, *b)));
                }
            }
        }
        j = j + 1;
    }
}

/// Appends the clashes on day `d` to `out`.
fn push_day_pairs(
    meetings: &[MeetingRecord],
    f: &Vec<(usize, i32, i32)>,
    d: &String,
    out: &mut Vec<ConflictPair>,
)
    requires
        forall|k: int| 0 <= k < f@.len() ==> (#[trigger] f@[k]).0 < meetings@.len(),
    ensures
        conflicts_view(final(out)@) == conflicts_view(old(out)@) + pairs_view(
            meetings@,
            f@,
            day_pairs(meetings@, f@, d@, f@.len() as int),
        ),
{
    let mut i: usize = 0;
    proof {
        assert(conflicts_view(out@) =~= conflicts_view(old(out)@) + pairs_view(meetings@, f@, seq![]));
    }
    while i < f.len()
        invariant
            i <= f@.len(),
            forall|k: int| 0 <= k < f@.len() ==> (#[trigger] f@[k]).0 < meetings@.len(),
            conflicts_view(out@) == conflicts_view(old(out)@) + pairs_view(
                meetings@,
                f@,
                day_pairs(meetings@, f@, d@, i as int),
            ),
        decreases f@.len() - i,
    {
        if meetings[f[i].0].day_code == *d {
            let ghost before = out@;
            push_row_pairs(meetings, f, d, i, out);
            proof {
                lemma_pairs_view_concat(
                    meetings@,
                    f@,
                    day_pairs(meetings@, f@, d@, i as int),
                    row_pairs(meetings@, f@, d@, i as int, f@.len() as int),
                );
            }
        }
        i = i + 1;
    }
}

/// The distinct day codes of the eligible meetings, in order of first appearance.
fn distinct_days(meetings: &[MeetingRecord], f: &Vec<(usize, i32, i32)>) -> (days: Vec<String>)
    requires
        forall|k: int| 0 <= k < f@.len() ==> (#[trigger] f@[k]).0 < meetings@.len(),
    ensures
        days@.map_values(|s: String| s@) == days_of(meetings@, f@, f@.len() as int),
{
    let mut days: Vec<String> = Vec::new();
    let mut m: usize = 0;
    while m < f.len()
        invariant
            m <= f@.len(),
            forall|k: int| 0 <= k < f@.len() ==> (#[trigger] f@[k]).0 < meetings@.len(),
            days@.map_values(|s: String| s@) == days_of(meetings@, f@, m as int),
        decreases f@.len() - m,
    {
        let d = &meetings[f[m].0].day_code;
        let mut k: usize = 0;
        while k < days.len() && days[k] != *d
            invariant
                k <= days@.len(),
                forall|q: int| 0 <= q < k ==> (#[trigger] days@[q])@ != d@,
            decreases days@.len() - k,
        {
            k = k + 1;
        }
        let found = k < days.len();
        proof {
            let dv = days@.map_values(|s: String| s@);
            if found {
                assert(dv[k as int] == d@);
                assert(dv.contains(d@));
            } else {
                assert(!dv.contains(d@)) by {
                    if dv.contains(d@) {
                        let q = choose|q: int| 0 <= q < dv.len() && dv[q] == d@;
                        assert(days@[q]@ == d@);
                    }
                }
            }
        }
        if !found {
            let ghost before = days@;
            days.push(d.clone());
            proof {
                assert(days@.map_values(|s: String| s@) =~= before.map_values(|s: String| s@).push(d@));
            }
        }
        m = m + 1;
    }
    days
}

/// Every pair of selected meetings on the same day whose half-open time ranges intersect,
/// for sections that differ. Rows whose section is not selected, whose times do not parse, or
/// whose end is not after its start are ignored. Conflicts come grouped by day, days in order of
/// first appearance among those meetings, within a day by position in `meetings`.
pub fn detect_conflicts(meetings: &[MeetingRecord], selected_sections: &[String]) -> (r: Vec<ConflictPair>)
    ensures
        conflicts_view(r@) == spec_conflicts(meetings@, selected_sections@),
{
    let f = eligible_meetings(meetings, selected_sections);
    let days = distinct_days(meetings, &f);
    let ghost dv = days@.map_values(|s: String| s@);
    let mut out: Vec<ConflictPair> = Vec::new();
    let mut t: usize = 0;
    proof {
        assert(conflicts_view(out@) =~= pairs_view(meetings@, f@, seq![]));
    }
    while t < days.len()
        invariant
            t <= days@.len(),
            dv == days@.map_values(|s: String| s@),
            forall|k: int| 0 <= k < f@.len() ==> (#[trigger] f@[k]).0 < meetings@.len(),
            conflicts_view(out@) == pairs_view(meetings@, f@, all_pairs(meetings@, f@, dv, t as int)),
        decreases days@.len() - t,
    {
        push_day_pairs(meetings, &f, &days[t], &mut out);
        proof {
            assert(dv[t as int] == days@[t as int]@);
            lemma_pairs_view_concat(
                meetings@,
                f@,
                all_pairs(meetings@, f@, dv, t as int),
                day_pairs(meetings@, f@, dv[t as int], f@.len() as int),
            );
        }
        t = t + 1;
    }
    out
}

proof fn lemma_row_pairs(rows: Seq<MeetingRecord>, f: Seq<(usize, i32, i32)>, d: Seq<char>, i: int, m: int)
    requires
        0 <= i,
        m <= f.len(),
    ensures
        forall|k: int|
            0 <= k < row_pairs(rows, f, d, i, m).len() ==> {
                let p = #[trigger] row_pairs(rows, f, d, i, m)[k];
                p.0 == i && i < p.1 < m && day_at(rows, f, p.1) == d && clash(rows, f, i, p.1)
            },
        forall|j: int|
            i < j < m && day_at(rows, f, j) == d && #[trigger] clash(rows, f, i, j) ==> row_pairs(
                rows,
                f,
                d,
                i,
                m,
            ).contains((i, j)),
        forall|k1: int, k2: int|
            0 <= k1 < k2 < row_pairs(rows, f, d, i, m).len() ==> (#[trigger] row_pairs(rows, f, d, i, m)[k1]).1
                < (#[trigger] row_pairs(rows, f, d, i, m)[k2]).1,
    decreases m - i,
{
    if m > i + 1 {
        lemma_row_pairs(rows, f, d, i, m - 1);
        let prev = row_pairs(rows, f, d, i, m - 1);
        if day_at(rows, f, m - 1) == d && clash(rows, f, i, m - 1) {
            assert(row_pairs(rows, f, d, i, m) == prev.push((i, m - 1)));
            assert(prev.push((i, m - 1))[prev.len() as int] == (i, m - 1));
            assert forall|j: int|
                i < j < m && day_at(rows, f, j) == d && #[trigger] clash(rows, f, i, j) implies row_pairs(
                rows,
                f,
                d,
                i,
                m,
            ).contains((i, j)) by {
                if j < m - 1 {
                    let k = choose|k: int| 0 <= k < prev.len() && prev[k] == (i, j);
                    assert(prev.push((i, m - 1))[k] == (i, j));
                }
            }
        }
    }
}

proof fn lemma_day_pairs(rows: Seq<MeetingRecord>, f: Seq<(usize, i32, i32)>, d: Seq<char>, m: int)
    requires
        m <= f.len(),
    ensures
        forall|k: int|
            0 <= k < day_pairs(rows, f, d, m).len() ==> {
                let p = #[trigger] day_pairs(rows, f, d, m)[k];
                0 <= p.0 < m && day_at(rows, f, p.0) == d && p.0 < p.1 < f.len() && clash(rows, f, p.0, p.1)
            },
        forall|a: int, b: int|
            0 <= a < m && a < b < f.len() && day_at(rows, f, a) == d && #[trigger] clash(rows, f, a, b)
                ==> day_pairs(rows, f, d, m).contains((a, b)),
        day_pairs(rows, f, d, m).no_duplicates(),
    decreases m,
{
    if m > 0 {
        lemma_day_pairs(rows, f, d, m - 1);
        let prev = day_pairs(rows, f, d, m - 1);
        if day_at(rows, f, m - 1) == d {
            let rp = row_pairs(rows, f, d, m - 1, f.len() as int);
            lemma_row_pairs(rows, f, d, m - 1, f.len() as int);
            let all = prev + rp;
            assert(day_pairs(rows, f, d, m) == all);
            assert forall|k: int| 0 <= k < all.len() implies {
                let p = #[trigger] all[k];
                0 <= p.0 < m && day_at(rows, f, p.0) == d && p.0 < p.1 < f.len() && clash(rows, f, p.0, p.1)
            } by {
                if k >= prev.len() {
                    assert(all[k] == rp[k - prev.len()]);
                }
            }
            assert forall|a: int, b: int|
                0 <= a < m && a < b < f.len() && day_at(rows, f, a) == d && #[trigger] clash(rows, f, a, b)
                    implies all.contains((a, b)) by {
                if a < m - 1 {
                    let k = choose|k: int| 0 <= k < prev.len() && prev[k] == (a, b);
                    assert(all[k] == (a, b));
                } else {
                    let k = choose|k: int| 0 <= k < rp.len() && rp[k] == (a, b);
                    assert(all[prev.len() + k] == (a, b));
                }
            }
            assert(rp.no_duplicates());
            vstd::seq_lib::lemma_no_dup_in_concat(prev, rp);
        }
    }
}

proof fn lemma_all_pairs(rows: Seq<MeetingRecord>, f: Seq<(usize, i32, i32)>, days: Seq<Seq<char>>, t: int)
    requires
        0 <= t <= days.len(),
        days.no_duplicates(),
    ensures
        forall|k: int|
            0 <= k < all_pairs(rows, f, days, t).len() ==> {
                let p = #[trigger] all_pairs(rows, f, days, t)[k];
                0 <= p.0 < p.1 < f.len() && clash(rows, f, p.0, p.1) && days.take(t).contains(
                    day_at(rows, f, p.0),
                )
            },
        forall|a: int, b: int|
            0 <= a < b < f.len() && days.take(t).contains(day_at(rows, f, a)) && #[trigger] clash(
                rows,
                f,
                a,
                b,
            ) ==> all_pairs(rows, f, days, t).contains((a, b)),
        all_pairs(rows, f, days, t).no_duplicates(),
    decreases t,
{
    if t > 0 {
        lemma_all_pairs(rows, f, days, t - 1);
        let prev = all_pairs(rows, f, days, t - 1);
        let d = days[t - 1];
        let dp = day_pairs(rows, f, d, f.len() as int);
        lemma_day_pairs(rows, f, d, f.len() as int);
        let all = prev + dp;
        assert(all_pairs(rows, f, days, t) == all);
        assert forall|x: Seq<char>| days.take(t - 1).contains(x) implies #[trigger] days.take(t).contains(x) by {
            let u = choose|u: int| 0 <= u < t - 1 && #[trigger] days.take(t - 1)[u] == x;
            assert(days.take(t)[u] == x);
        }
        assert(days.take(t)[t - 1] == d);
        assert forall|k: int| 0 <= k < all.len() implies {
            let p = #[trigger] all[k];
            0 <= p.0 < p.1 < f.len() && clash(rows, f, p.0, p.1) && days.take(t).contains(day_at(rows, f, p.0))
        } by {
            if k >= prev.len() {
                assert(all[k] == dp[k - prev.len()]);
            } else {
                assert(all[k] == prev[k]);
            }
        }
        assert forall|a: int, b: int|
            0 <= a < b < f.len() && days.take(t).contains(day_at(rows, f, a)) && #[trigger] clash(rows, f, a, b)
                implies all.contains((a, b)) by {
            let u = choose|u: int| 0 <= u < t && #[trigger] days.take(t)[u] == day_at(rows, f, a);
            if u < t - 1 {
                assert(days.take(t - 1)[u] == day_at(rows, f, a));
                assert(days.take(t - 1).contains(day_at(rows, f, a)));
                let k = choose|k: int| 0 <= k < prev.len() && prev[k] == (a, b);
                assert(all[k] == (a, b));
            } else {
                let k = choose|k: int| 0 <= k < dp.len() && dp[k] == (a, b);
                assert(all[prev.len() + k] == (a, b));
            }
        }
        assert forall|i: int, j: int| 0 <= i < prev.len() && 0 <= j < dp.len() implies prev[i] != dp[j] by {
            let p = prev[i];
            let q = dp[j];
            if p == q {
                let u = choose|u: int| 0 <= u < t - 1 && #[trigger] days.take(t - 1)[u] == day_at(rows, f, p.0);
                assert(days[u] == d);
            }
        }
        vstd::seq_lib::lemma_no_dup_in_concat(prev, dp);
    }
}

proof fn lemma_days_of(rows: Seq<MeetingRecord>, f: Seq<(usize, i32, i32)>, m: int)
    requires
        m <= f.len(),
    ensures
        days_of(rows, f, m).no_duplicates(),
        forall|i: int| 0 <= i < m ==> days_of(rows, f, m).contains(#[trigger] day_at(rows, f, i)),
    decreases m,
{
    if m > 0 {
        lemma_days_of(rows, f, m - 1);
        let prev = days_of(rows, f, m - 1);
        let x = day_at(rows, f, m - 1);
        if !prev.contains(x) {
            let nd = prev.push(x);
            assert forall|i: int| 0 <= i < m implies nd.contains(#[trigger] day_at(rows, f, i)) by {
                if i < m - 1 {
                    let k = choose|k: int| 0 <= k < prev.len() && prev[k] == day_at(rows, f, i);
                    assert(nd[k] == day_at(rows, f, i));
                } else {
                    assert(nd[prev.len() as int] == x);
                }
            }
        }
    }
}

/// `detect_conflicts` reports every clash of eligible meetings exactly once: a pair of eligible
/// meetings `(i, j)`, `i < j`, is reported if and only if they are on the same day, belong to
/// different sections, and their half-open time ranges intersect; no pair is reported twice.
pub proof fn lemma_conflicts_are_exactly_clashes(rows: Seq<MeetingRecord>, selected: Seq<String>)
    ensures
        ({
            let f = eligible_rows(rows, selected, rows.len() as int);
            &&& forall|p: (int, int)|
                #[trigger] conflict_indices(rows, selected).contains(p) <==> (0 <= p.0 < p.1 < f.len()
                    && clash(rows, f, p.0, p.1))
            &&& conflict_indices(rows, selected).no_duplicates()
        }),
{
    let f = eligible_rows(rows, selected, rows.len() as int);
    let days = days_of(rows, f, f.len() as int);
    lemma_days_of(rows, f, f.len() as int);
    lemma_all_pairs(rows, f, days, days.len() as int);
    assert(days.take(days.len() as int) =~= days);
    let ci = conflict_indices(rows, selected);
    assert forall|p: (int, int)| #[trigger] ci.contains(p) <==> (0 <= p.0 < p.1 < f.len() && clash(rows, f, p.0, p.1)) by {
        if ci.contains(p) {
            let k = choose|k: int| 0 <= k < ci.len() && ci[k] == p;
        }
        if 0 <= p.0 < p.1 < f.len() && clash(rows, f, p.0, p.1) {
            assert(days.contains(day_at(rows, f, p.0)));
        }
    }
}

/// The eligible meetings are exactly the selected rows with a valid span, in row order, each
/// with the minutes of its span.
pub proof fn lemma_eligible_rows(rows: Seq<MeetingRecord>, selected: Seq<String>, n: int)
    requires
        0 <= n <= rows.len() <= usize::MAX,
    ensures
        ({
            let f = eligible_rows(rows, selected, n);
            &&& forall|i: int|
                0 <= i < f.len() ==> {
                    let e = #[trigger] f[i];
                    &&& 0 <= e.0 < n
                    &&& is_selected(selected, rows[e.0 as int].spec_key())
                    &&& meeting_span(rows[e.0 as int]) == Some((e.1, e.2))
                }
            &&& forall|i: int, j: int| 0 <= i < j < f.len() ==> (#[trigger] f[i]).0 < (#[trigger] f[j]).0
            &&& forall|a: int|
                0 <= a < n && is_selected(selected, rows[a].spec_key()) && (#[trigger] meeting_span(rows[a])) is Some
                    ==> exists|i: int| 0 <= i < f.len() && f[i].0 == a
        }),
    decreases n,
{
    if n > 0 {
        lemma_eligible_rows(rows, selected, n - 1);
        let prev = eligible_rows(rows, selected, n - 1);
        let f = eligible_rows(rows, selected, n);
        assert forall|a: int|
            0 <= a < n && is_selected(selected, rows[a].spec_key()) && (#[trigger] meeting_span(rows[a])) is Some
                implies exists|i: int| 0 <= i < f.len() && f[i].0 == a by {
            if a < n - 1 {
                let i = choose|i: int| 0 <= i < prev.len() && prev[i].0 == a;
                assert(f[i] == prev[i]);
            } else {
                assert(f[prev.len() as int].0 == a);
            }
        }
    }
}


/// A parsed clock time is a minute of the day.
pub proof fn lemma_clock_in_day(v: Seq<char>)
    ensures
        spec_parse_clock(v) matches Ok(m) ==> 0 <= m < 1440,
{
}

/// `detect_conflicts` and the weekly minute maps agree on what an overlap is: two eligible
/// meetings of different sections on one day clash exactly when they share a minute of the day.
pub proof fn lemma_clash_is_shared_minute(rows: Seq<MeetingRecord>, selected: Seq<String>, i: int, j: int)
    requires
        rows.len() <= usize::MAX,
        0 <= i < eligible_rows(rows, selected, rows.len() as int).len(),
        0 <= j < eligible_rows(rows, selected, rows.len() as int).len(),
    ensures
        ({
            let f = eligible_rows(rows, selected, rows.len() as int);
            clash(rows, f, i, j) <==> (day_at(rows, f, i) == day_at(rows, f, j)
                && rows[f[i].0 as int].spec_key() != rows[f[j].0 as int].spec_key()
                && !block_minutes(f[i].1 as int, f[i].2 as int).disjoint(block_minutes(f[j].1 as int, f[j].2 as int)))
        }),
{
    let f = eligible_rows(rows, selected, rows.len() as int);
    lemma_eligible_rows(rows, selected, rows.len() as int);
    let ri = rows[f[i].0 as int];
    let rj = rows[f[j].0 as int];
    assert(meeting_span(ri) == Some((f[i].1, f[i].2)));
    assert(meeting_span(rj) == Some((f[j].1, f[j].2)));
    reveal(meeting_span);
    lemma_clock_in_day(spec_to_uppercase(trim(ri.start_time@)));
    lemma_clock_in_day(spec_to_uppercase(trim(ri.end_time@)));
    lemma_clock_in_day(spec_to_uppercase(trim(rj.start_time@)));
    lemma_clock_in_day(spec_to_uppercase(trim(rj.end_time@)));
    lemma_half_open_overlap(f[i].1 as int, f[i].2 as int, f[j].1 as int, f[j].2 as int);
}


/// Every reported conflict names two selected meetings of different sections on the same day
/// whose time ranges overlap, the left one earlier in the input, and carries each meeting's own
/// fields: the day of the left row, the left row's section and times, the right row's section
/// and times.
pub proof fn lemma_conflicts_report_row_fields(rows: Seq<MeetingRecord>, selected: Seq<String>, q: int)
    requires
        rows.len() <= usize::MAX,
        0 <= q < spec_conflicts(rows, selected).len(),
    ensures
        exists|a: int, b: int|
            0 <= a < b < rows.len() && #[trigger] spec_conflicts(rows, selected)[q] == seq![
                rows[a].day_code@,
                rows[a].day_name@,
                rows[a].spec_key(),
                rows[b].spec_key(),
                rows[a].start_time@,
                rows[a].end_time@,
                rows[b].start_time@,
                rows[b].end_time@,
            ] && is_selected(selected, rows[a].spec_key()) && is_selected(selected, rows[b].spec_key())
                && rows[a].day_code@ == rows[b].day_code@ && rows[a].spec_key() != rows[b].spec_key() && ({
                let sa = meeting_span(rows[a]);
                let sb = meeting_span(rows[b]);
                &&& sa is Some
                &&& sb is Some
                &&& (sa->0).0 < (sb->0).1
                &&& (sb->0).0 < (sa->0).1
            }),
{
    let f = eligible_rows(rows, selected, rows.len() as int);
    lemma_conflicts_are_exactly_clashes(rows, selected);
    lemma_eligible_rows(rows, selected, rows.len() as int);
    let ci = conflict_indices(rows, selected);
    let p = ci[q];
    assert(ci.contains(p));
    assert(clash(rows, f, p.0, p.1));
    let a = f[p.0].0 as int;
    let b = f[p.1].0 as int;
    assert(f[p.0].0 < f[p.1].0);
    assert(meeting_span(rows[a]) == Some((f[p.0].1, f[p.0].2)));
    assert(meeting_span(rows[b]) == Some((f[p.1].1, f[p.1].2)));
    assert(spec_conflicts(rows, selected)[q] == conflict_of(rows[a], rows[b]));
}

} // verus!
