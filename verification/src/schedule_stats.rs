//! The integer measures of a candidate schedule that its stress score is computed from: weekly,
//! evening and early minutes, sections without meetings, back-to-back pairs and the busiest day.
use vstd::prelude::*;
use crate::prereqs::strings_view;
use crate::search::{section_blocks, StrMap};
use crate::weekly_bitmap::MeetingBlock;

verus! {

/// Meetings that start at or after this minute count as evening (17:00).
pub const EVENING_START_MIN: i32 = 1020;

/// Meetings that start before this minute count as early (09:00).
pub const EARLY_END_MIN: i32 = 540;

/// Two meetings on a day are back to back when the gap between them is below this many minutes.
pub const BACK_TO_BACK_GAP_MIN: i32 = 12;

/// The measures of one schedule.
#[derive(Debug, Clone)]
pub struct ScheduleStats {
    /// Minutes of all meetings.
    pub total_minutes: u64,
    /// Minutes of meetings that start in the evening.
    pub evening_minutes: u64,
    /// Minutes of meetings that start early.
    pub early_minutes: u64,
    /// Sections with no meeting blocks at all.
    pub missing_sections: usize,
    /// Consecutive meetings on a day (by start) with a gap in `0 .. 12` minutes.
    pub back_to_back: usize,
    /// The most meetings on one day.
    pub busy_day_max: usize,
}

/// The blocks of `bs` whose end is after their start, in order.
pub open spec fn real_blocks(bs: Seq<MeetingBlock>) -> Seq<MeetingBlock>
    decreases bs.len(),
{
    if bs.len() == 0 {
        seq![]
    } else {
        let p = real_blocks(bs.drop_last());
        let b = bs.last();
        if b.end_min > b.start_min {
            p.push(b)
        } else {
            p
        }
    }
}

/// The real blocks of the first `n` sections, section by section.
pub open spec fn schedule_blocks(table: Map<Seq<char>, Vec<MeetingBlock>>, sections: Seq<Seq<char>>, n: int) -> Seq<
    MeetingBlock,
>
    decreases n,
{
    if n <= 0 {
        seq![]
    } else {
        schedule_blocks(table, sections, n - 1) + real_blocks(section_blocks(table, sections[n - 1]))
    }
}

/// How many of the first `n` sections have no blocks at all.
pub open spec fn missing_count(table: Map<Seq<char>, Vec<MeetingBlock>>, sections: Seq<Seq<char>>, n: int) -> int
    decreases n,
{
    if n <= 0 {
        0
    } else {
        missing_count(table, sections, n - 1) + if section_blocks(table, sections[n - 1]).len() == 0 {
            1int
        } else {
            0int
        }
    }
}

/// Minutes (end minus start) of the blocks of `bs` that start in `lo .. hi`.
pub open spec fn minutes_in(bs: Seq<MeetingBlock>, lo: int, hi: int) -> int
    decreases bs.len(),
{
    if bs.len() == 0 {
        0
    } else {
        minutes_in(bs.drop_last(), lo, hi) + if lo <= bs.last().start_min < hi {
            bs.last().end_min - bs.last().start_min
        } else {
            0int
        }
    }
}

/// `x` capped at `u64::MAX`.
pub open spec fn cap_u64(x: int) -> u64 {
    if x > u64::MAX {
        u64::MAX
    } else {
        x as u64
    }
}

/// `x` capped at `usize::MAX`.
pub open spec fn cap_usize(x: int) -> usize {
    if x > usize::MAX {
        usize::MAX
    } else {
        x as usize
    }
}

/// The distinct days of `bs`, in order of first appearance.
pub open spec fn block_days(bs: Seq<MeetingBlock>) -> Seq<Seq<char>>
    decreases bs.len(),
{
    if bs.len() == 0 {
        seq![]
    } else {
        let p = block_days(bs.drop_last());
        let d = bs.last().day_code@;
        if p.contains(d) {
            p
        } else {
            p.push(d)
        }
    }
}

/// The `(start, end)` of the blocks of `bs` on day `d`, in order.
pub open spec fn day_spans(bs: Seq<MeetingBlock>, d: Seq<char>) -> Seq<(i32, i32)>
    decreases bs.len(),
{
    if bs.len() == 0 {
        seq![]
    } else {
        let p = day_spans(bs.drop_last(), d);
        let b = bs.last();
        if b.day_code@ == d {
            p.push((b.start_min, b.end_min))
        } else {
            p
        }
    }
}

/// `s` with `x` placed after every span that starts no later than it (a stable insertion).
pub open spec fn insert_by_start(s: Seq<(i32, i32)>, x: (i32, i32)) -> Seq<(i32, i32)>
    decreases s.len(),
{
    if s.len() == 0 {
        seq![x]
    } else if s[0].0 > x.0 {
        seq![x] + s
    } else {
        seq![s[0]] + insert_by_start(s.drop_first(), x)
    }
}

/// `s` stably sorted by start minute.
pub open spec fn sort_by_start(s: Seq<(i32, i32)>) -> Seq<(i32, i32)>
    decreases s.len(),
{
    if s.len() == 0 {
        seq![]
    } else {
        insert_by_start(sort_by_start(s.drop_last()), s.last())
    }
}

/// How many consecutive pairs of the first `n` spans of `s` are back to back.
pub open spec fn back_to_back_count(s: Seq<(i32, i32)>, n: int) -> int
    decreases n,
{
    if n <= 1 {
        0
    } else {
        let gap = s[n - 1].0 - s[n - 2].1;
        back_to_back_count(s, n - 1) + if 0 <= gap < BACK_TO_BACK_GAP_MIN {
            1int
        } else {
            0int
        }
    }
}

/// Back-to-back pairs over the first `t` days of `days`.
pub open spec fn back_to_back_total(bs: Seq<MeetingBlock>, days: Seq<Seq<char>>, t: int) -> int
    decreases t,
{
    if t <= 0 {
        0
    } else {
        let s = sort_by_start(day_spans(bs, days[t - 1]));
        back_to_back_total(bs, days, t - 1) + back_to_back_count(s, s.len() as int)
    }
}

/// The spans of `s` come in order of their start minutes.
pub open spec fn starts_sorted(s: Seq<(i32, i32)>) -> bool {
    forall|i: int, j: int| 0 <= i < j < s.len() ==> (#[trigger] s[i]).0 <= (#[trigger] s[j]).0
}

/// The back-to-back pairs of the first `t` span lists of `ss`, each counted over consecutive spans.
pub open spec fn sum_day_counts(ss: Seq<Seq<(i32, i32)>>, t: int) -> int
    decreases t,
{
    if t <= 0 {
        0
    } else {
        sum_day_counts(ss, t - 1) + back_to_back_count(ss[t - 1], ss[t - 1].len() as int)
    }
}

proof fn lemma_insert_by_start(s: Seq<(i32, i32)>, x: (i32, i32))
    requires
        starts_sorted(s),
    ensures
        starts_sorted(insert_by_start(s, x)),
        insert_by_start(s, x).to_multiset() == s.to_multiset().insert(x),
    decreases s.len(),
{
    broadcast use vstd::seq_lib::group_to_multiset_ensures;
    broadcast use vstd::multiset::group_multiset_axioms;

    if s.len() == 0 {
        assert(seq![x] =~= Seq::<(i32, i32)>::empty().push(x));
        assert(Seq::<(i32, i32)>::empty().to_multiset() =~= vstd::multiset::Multiset::empty());
    } else if s[0].0 > x.0 {
        let r = seq![x] + s;
        assert(r =~= s.insert(0, x));
        assert forall|i: int, j: int| 0 <= i < j < r.len() implies (#[trigger] r[i]).0 <= (#[trigger] r[j]).0 by {
            if i == 0 {
                assert(r[j] == s[j - 1]);
                if j > 1 {
                    assert(s[0].0 <= s[j - 1].0);
                }
            } else {
                assert(r[i] == s[i - 1] && r[j] == s[j - 1]);
            }
        }
    } else {
        let t = s.drop_first();
        assert(starts_sorted(t)) by {
            assert forall|i: int, j: int| 0 <= i < j < t.len() implies (#[trigger] t[i]).0 <= (#[trigger] t[j]).0 by {
                assert(t[i] == s[i + 1] && t[j] == s[j + 1]);
            }
        }
        lemma_insert_by_start(t, x);
        let rest = insert_by_start(t, x);
        let r = seq![s[0]] + rest;
        assert(r == insert_by_start(s, x));
        assert(r =~= rest.insert(0, s[0]));
        assert(s =~= t.insert(0, s[0]));
        assert forall|i: int, j: int| 0 <= i < j < r.len() implies (#[trigger] r[i]).0 <= (#[trigger] r[j]).0 by {
            if i == 0 {
                let y = rest[j - 1];
                assert(rest.contains(y));
                assert(rest.to_multiset().count(y) > 0);
                if y != x {
                    assert(t.to_multiset().count(y) > 0);
                    assert(t.contains(y));
                    let q = choose|q: int| 0 <= q < t.len() && t[q] == y;
                    assert(s[q + 1] == y);
                }
            } else {
                assert(r[i] == rest[i - 1] && r[j] == rest[j - 1]);
            }
        }
        assert(r.to_multiset() =~= s.to_multiset().insert(x));
    }
}

/// `sort_by_start` sorts: its result is in order of start minutes and holds the same spans,
/// each as often as the input.
pub proof fn lemma_sort_by_start(s: Seq<(i32, i32)>)
    ensures
        starts_sorted(sort_by_start(s)),
        sort_by_start(s).to_multiset() == s.to_multiset(),
    decreases s.len(),
{
    broadcast use vstd::seq_lib::group_to_multiset_ensures;

    if s.len() == 0 {
        assert(sort_by_start(s) =~= s);
    } else {
        lemma_sort_by_start(s.drop_last());
        lemma_insert_by_start(sort_by_start(s.drop_last()), s.last());
        assert(s =~= s.drop_last().push(s.last()));
    }
}

/// Back-to-back pairs are counted between meetings that follow each other by start time: for
/// each day, the count is taken over that day's meetings arranged in order of their start
/// minutes (some such arrangement of exactly those meetings), whatever order the sections and
/// their blocks come in.
pub proof fn lemma_back_to_back_by_start(bs: Seq<MeetingBlock>, days: Seq<Seq<char>>, t: int)
    requires
        0 <= t <= days.len(),
    ensures
        exists|ss: Seq<Seq<(i32, i32)>>|
            ss.len() == t && (forall|u: int|
                0 <= u < t ==> starts_sorted(#[trigger] ss[u]) && ss[u].to_multiset() == day_spans(
                    bs,
                    days[u],
                ).to_multiset()) && back_to_back_total(bs, days, t) == sum_day_counts(ss, t),
    decreases t,
{
    if t == 0 {
        assert(Seq::<Seq<(i32, i32)>>::empty().len() == 0);
        assert(sum_day_counts(Seq::<Seq<(i32, i32)>>::empty(), 0) == 0);
    } else {
        lemma_back_to_back_by_start(bs, days, t - 1);
        let ss0 = choose|ss: Seq<Seq<(i32, i32)>>|
            ss.len() == t - 1 && (forall|u: int|
                0 <= u < t - 1 ==> starts_sorted(#[trigger] ss[u]) && ss[u].to_multiset() == day_spans(
                    bs,
                    days[u],
                ).to_multiset()) && back_to_back_total(bs, days, t - 1) == sum_day_counts(ss, t - 1);
        let sorted = sort_by_start(day_spans(bs, days[t - 1]));
        lemma_sort_by_start(day_spans(bs, days[t - 1]));
        let ss = ss0.push(sorted);
        assert forall|u: int| 0 <= u < t implies starts_sorted(#[trigger] ss[u]) && ss[u].to_multiset()
            == day_spans(bs, days[u]).to_multiset() by {
            if u < t - 1 {
                assert(ss[u] == ss0[u]);
            }
        }
        assert(sum_day_counts(ss, t - 1) == sum_day_counts(ss0, t - 1)) by {
            lemma_sum_day_counts_prefix(ss0, ss, t - 1);
        }
        assert(ss[t - 1] == sorted);
    }
}

proof fn lemma_sum_day_counts_prefix(a: Seq<Seq<(i32, i32)>>, b: Seq<Seq<(i32, i32)>>, t: int)
    requires
        0 <= t <= a.len(),
        t <= b.len(),
        forall|u: int| 0 <= u < t ==> a[u] == b[u],
    ensures
        sum_day_counts(a, t) == sum_day_counts(b, t),
    decreases t,
{
    if t > 0 {
        lemma_sum_day_counts_prefix(a, b, t - 1);
    }
}

/// The most blocks on one of the first `t` days of `days`.
pub open spec fn busiest_day(bs: Seq<MeetingBlock>, days: Seq<Seq<char>>, t: int) -> int
    decreases t,
{
    if t <= 0 {
        0
    } else {
        let p = busiest_day(bs, days, t - 1);
        let c = day_spans(bs, days[t - 1]).len() as int;
        if c > p {
            c
        } else {
            p
        }
    }
}

proof fn lemma_minutes_nonneg(bs: Seq<MeetingBlock>, lo: int, hi: int)
    requires
        forall|i: int| 0 <= i < bs.len() ==> (#[trigger] bs[i]).end_min > bs[i].start_min,
    ensures
        minutes_in(bs, lo, hi) >= 0,
    decreases bs.len(),
{
    if bs.len() > 0 {
        lemma_minutes_nonneg(bs.drop_last(), lo, hi);
        assert(bs[bs.len() - 1] == bs.last());
    }
}

/// Adds `d` to a saturating sum.
fn add_capped(acc: u64, d: u64, Ghost(sum): Ghost<int>) -> (r: u64)
    requires
        acc == cap_u64(sum),
        sum >= 0,
    ensures
        r == cap_u64(sum + d),
{
    acc.saturating_add(d)
}

/// A copy of a meeting block.
fn copy_block(b: &MeetingBlock) -> (r: MeetingBlock)
    ensures
        r == *b,
{
    MeetingBlock { day_code: b.day_code.clone(), start_min: b.start_min, end_min: b.end_min }
}

proof fn lemma_insert_by_start_at(s: Seq<(i32, i32)>, x: (i32, i32), p: int)
    requires
        0 <= p <= s.len(),
        forall|k: int| 0 <= k < p ==> (#[trigger] s[k]).0 <= x.0,
        p == s.len() || s[p].0 > x.0,
    ensures
        insert_by_start(s, x) == s.take(p) + seq![x] + s.skip(p),
    decreases p,
{
    if p == 0 {
        assert(s.take(0) + seq![x] + s.skip(0) =~= seq![x] + s);
    } else {
        lemma_insert_by_start_at(s.drop_first(), x, p - 1);
        assert(s.take(p) + seq![x] + s.skip(p) =~= seq![s[0]] + (s.drop_first().take(p - 1) + seq![x]
            + s.drop_first().skip(p - 1)));
    }
}

/// `v` stably sorted by start minute.
fn sorted_spans(v: &Vec<(i32, i32)>) -> (r: Vec<(i32, i32)>)
    ensures
        r@ == sort_by_start(v@),
{
    let mut out: Vec<(i32, i32)> = Vec::new();
    let mut i: usize = 0;
    while i < v.len()
        invariant
            i <= v@.len(),
            out@ == sort_by_start(v@.take(i as int)),
        decreases v@.len() - i,
    {
        let x = v[i];
        let mut p: usize = 0;
        while p < out.len() && out[p].0 <= x.0
            invariant
                p <= out@.len(),
                forall|k: int| 0 <= k < p ==> (#[trigger] out@[k]).0 <= x.0,
            decreases out@.len() - p,
        {
            p = p + 1;
        }
        proof {
            lemma_insert_by_start_at(out@, x, p as int);
            assert(v@.take(i + 1).drop_last() =~= v@.take(i as int));
        }
        let ghost before = out@;
        out.insert(p, x);
        proof {
            assert(out@ =~= before.take(p as int) + seq![x] + before.skip(p as int));
        }
        i = i + 1;
    }
    proof {
        assert(v@.take(v@.len() as int) =~= v@);
    }
    out
}

/// The spans of the blocks of `all` on day `d`.
fn spans_on_day(all: &Vec<MeetingBlock>, d: &String) -> (r: Vec<(i32, i32)>)
    ensures
        r@ == day_spans(all@, d@),
{
    let mut out: Vec<(i32, i32)> = Vec::new();
    let mut i: usize = 0;
    while i < all.len()
        invariant
            i <= all@.len(),
            out@ == day_spans(all@.take(i as int), d@),
        decreases all@.len() - i,
    {
        proof {
            assert(all@.take(i + 1).drop_last() =~= all@.take(i as int));
        }
        if all[i].day_code == *d {
            out.push((all[i].start_min, all[i].end_min));
        }
        i = i + 1;
    }
    proof {
        assert(all@.take(all@.len() as int) =~= all@);
    }
    out
}

/// Back-to-back pairs among spans already sorted by start.
fn count_back_to_back(s: &Vec<(i32, i32)>) -> (r: usize)
    ensures
        r == back_to_back_count(s@, s@.len() as int),
{
    let mut c: usize = 0;
    let mut i: usize = 1;
    if s.len() == 0 {
        return 0;
    }
    while i < s.len()
        invariant
            1 <= i <= s@.len(),
            c == back_to_back_count(s@, i as int),
            c < i,
        decreases s@.len() - i,
    {
        let gap: i64 = s[i].0 as i64 - s[i - 1].1 as i64;
        if 0 <= gap && gap < BACK_TO_BACK_GAP_MIN as i64 {
            c = c + 1;
        }
        i = i + 1;
    }
    c
}

/// The distinct days of `all`, in order of first appearance.
fn distinct_block_days(all: &Vec<MeetingBlock>) -> (r: Vec<String>)
    ensures
        strings_view(r@) == block_days(all@),
{
    let mut days: Vec<String> = Vec::new();
    let mut i: usize = 0;
    while i < all.len()
        invariant
            i <= all@.len(),
            strings_view(days@) == block_days(all@.take(i as int)),
        decreases all@.len() - i,
    {
        proof {
            assert(all@.take(i + 1).drop_last() =~= all@.take(i as int));
        }
        let d = &all[i].day_code;
        let mut k: usize = 0;
        while k < days.len() && days[k] != *d
            invariant
                k <= days@.len(),
                forall|q: int| 0 <= q < k ==> (#[trigger] days@[q])@ != d@,
            decreases days@.len() - k,
        {
            k = k + 1;
        }
        proof {
            let dv = strings_view(days@);
            if k < days.len() {
                assert(dv[k as int] == d@);
                assert(dv.contains(d@));
            } else {
                assert(!dv.contains(d@)) by {
                    if dv.contains(d@) {
                        let q = choose|q: int| 0 <= q < dv.len() && dv[q] == d@;
                        assert(days@[q]@ == d@);
                    }
                }
            }
        }
        if k == days.len() {
            let ghost before = days@;
            days.push(d.clone());
            proof {
                assert(strings_view(days@) =~= strings_view(before).push(d@));
            }
        }
        i = i + 1;
    }
    proof {
        assert(all@.take(all@.len() as int) =~= all@);
    }
    days
}

/// The measures of the schedule `sections`: minutes of its meetings (all, evening-starting and
/// early-starting; blocks whose end is not after their start are ignored; sums saturate at
/// `u64::MAX`), how many sections have no blocks, back-to-back pairs per day after sorting the
/// day's meetings by start (saturating at `usize::MAX`), and the most meetings on one day.
pub fn schedule_stats(sections: &Vec<String>, by_section: &StrMap<Vec<MeetingBlock>>) -> (r: ScheduleStats)
    requires
        by_section.wf(),
    ensures
        ({
            let bs = schedule_blocks(by_section@, strings_view(sections@), sections@.len() as int);
            let days = block_days(bs);
            &&& r.total_minutes == cap_u64(minutes_in(bs, i32::MIN as int, i32::MAX + 1))
            &&& r.evening_minutes == cap_u64(minutes_in(bs, EVENING_START_MIN as int, i32::MAX + 1))
            &&& r.early_minutes == cap_u64(minutes_in(bs, i32::MIN as int, EARLY_END_MIN as int))
            &&& r.missing_sections == missing_count(by_section@, strings_view(sections@), sections@.len() as int)
            &&& r.back_to_back == cap_usize(back_to_back_total(bs, days, days.len() as int))
            &&& r.busy_day_max == busiest_day(bs, days, days.len() as int)
        }),
{
    let ghost sv = strings_view(sections@);
    let ghost tab = by_section@;
    let empty: Vec<MeetingBlock> = Vec::new();
    let mut all: Vec<MeetingBlock> = Vec::new();
    let mut total: u64 = 0;
    let mut evening: u64 = 0;
    let mut early: u64 = 0;
    let mut missing: usize = 0;
    let mut si: usize = 0;
    while si < sections.len()
        invariant
            si <= sections@.len(),
            sv == strings_view(sections@),
            tab == by_section@,
            by_section.wf(),
            empty@.len() == 0,
            all@ == schedule_blocks(tab, sv, si as int),
            forall|i: int| 0 <= i < all@.len() ==> (#[trigger] all@[i]).end_min > all@[i].start_min,
            total == cap_u64(minutes_in(all@, i32::MIN as int, i32::MAX + 1)),
            evening == cap_u64(minutes_in(all@, EVENING_START_MIN as int, i32::MAX + 1)),
            early == cap_u64(minutes_in(all@, i32::MIN as int, EARLY_END_MIN as int)),
            missing == missing_count(tab, sv, si as int),
            missing <= si,
        decreases sections@.len() - si,
    {
        let blocks = match by_section.get(&sections[si]) {
            Some(v) => v,
            None => &empty,
        };
        proof {
            assert(sv[si as int] == sections@[si as int]@);
            assert(blocks@ == section_blocks(tab, sv[si as int]));
        }
        if blocks.len() == 0 {
            missing = missing + 1;
            proof {
                assert(real_blocks(blocks@) =~= seq![]);
                assert(schedule_blocks(tab, sv, si + 1) =~= all@);
            }
        } else {
            let ghost base = all@;
            let mut j: usize = 0;
            while j < blocks.len()
                invariant
                    j <= blocks@.len(),
                    all@ == base + real_blocks(blocks@.take(j as int)),
                    forall|i: int| 0 <= i < all@.len() ==> (#[trigger] all@[i]).end_min > all@[i].start_min,
                    total == cap_u64(minutes_in(all@, i32::MIN as int, i32::MAX + 1)),
                    evening == cap_u64(minutes_in(all@, EVENING_START_MIN as int, i32::MAX + 1)),
                    early == cap_u64(minutes_in(all@, i32::MIN as int, EARLY_END_MIN as int)),
                decreases blocks@.len() - j,
            {
                let b = &blocks[j];
                proof {
                    assert(blocks@.take(j + 1).drop_last() =~= blocks@.take(j as int));
                }
                if b.end_min > b.start_min {
                    let d: u64 = (b.end_min as i64 - b.start_min as i64) as u64;
                    let ghost before = all@;
                    proof {
                        lemma_minutes_nonneg(before, i32::MIN as int, i32::MAX + 1);
                        lemma_minutes_nonneg(before, EVENING_START_MIN as int, i32::MAX + 1);
                        lemma_minutes_nonneg(before, i32::MIN as int, EARLY_END_MIN as int);
                    }
                    total = add_capped(total, d, Ghost(minutes_in(before, i32::MIN as int, i32::MAX + 1)));
                    if b.start_min >= EVENING_START_MIN {
                        evening = add_capped(evening, d, Ghost(minutes_in(before, EVENING_START_MIN as int, i32::MAX + 1)));
                    }
                    if b.start_min < EARLY_END_MIN {
                        early = add_capped(early, d, Ghost(minutes_in(before, i32::MIN as int, EARLY_END_MIN as int)));
                    }
                    all.push(copy_block(b));
                    proof {
                        assert(all@.drop_last() =~= before);
                    }
                }
                j = j + 1;
            }
            proof {
                assert(blocks@.take(blocks@.len() as int) =~= blocks@);
            }
        }
        si = si + 1;
    }
    let days = distinct_block_days(&all);
    let ghost dv = block_days(all@);
    let mut b2b: usize = 0;
    let mut busy: usize = 0;
    let mut t: usize = 0;
    while t < days.len()
        invariant
            t <= days@.len(),
            strings_view(days@) == dv,
            b2b == cap_usize(back_to_back_total(all@, dv, t as int)),
            back_to_back_total(all@, dv, t as int) >= 0,
            busy == busiest_day(all@, dv, t as int),
        decreases days@.len() - t,
    {
        let spans = spans_on_day(&all, &days[t]);
        let sorted = sorted_spans(&spans);
        let c = count_back_to_back(&sorted);
        proof {
            assert(dv[t as int] == days@[t as int]@);
        }
        b2b = b2b.saturating_add(c);
        if spans.len() > busy {
            busy = spans.len();
        }
        t = t + 1;
    }
    ScheduleStats {
        total_minutes: total,
        evening_minutes: evening,
        early_minutes: early,
        missing_sections: missing,
        back_to_back: b2b,
        busy_day_max: busy,
    }
}

} // verus!
