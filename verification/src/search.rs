//! Candidate schedule search: per-section meeting tables, section pools, and the depth-first
//! enumeration of conflict-free combinations.
use vstd::prelude::*;
use crate::conflicts::{
    clash, conflict_indices, day_at, eligible_rows, is_selected, key_of, lemma_clash_is_shared_minute,
    lemma_conflicts_are_exactly_clashes, lemma_eligible_rows, meeting_span, parse_time_to_minutes, spec_conflicts,
    spec_time_minutes, MeetingRecord,
};
use crate::prereqs::{
    normalized_code, schedule_satisfies, schedule_satisfies_prereq_groups, strings_view, PrereqMap,
};
use crate::text::{
    join_strings, join_with, lemma_sort_order_free, lemma_sort_strings, sort_strings, sorted_strings, spec_to_uppercase, to_uppercase, trim, trim_string,
};
use crate::weekly_bitmap::{
    accepts, added, block_minutes, blocks_minutes, lemma_remove_undoes_add, MeetingBlock, WeeklyOccupancy,
};

verus! {

/// A table keyed by strings, each key once, in insertion order.
#[derive(Debug, Clone)]
pub struct StrMap<V> {
    keys: Vec<String>,
    vals: Vec<V>,
}

impl<V> View for StrMap<V> {
    type V = Map<Seq<char>, V>;

    /// Key to value.
    closed spec fn view(&self) -> Map<Seq<char>, V> {
        Map::new(
            |k: Seq<char>| exists|i: int| 0 <= i < self.keys.len() && (#[trigger] self.keys[i])@ == k,
            |k: Seq<char>|
                {
                    let i = choose|i: int| 0 <= i < self.keys.len() && (#[trigger] self.keys[i])@ == k;
                    self.vals[i]
                },
        )
    }
}

impl<V> StrMap<V> {
    /// Keys and values line up, and no key occurs twice.
    pub closed spec fn wf(&self) -> bool {
        &&& self.keys.len() == self.vals.len()
        &&& forall|i: int, j: int|
            0 <= i < j < self.keys.len() ==> (#[trigger] self.keys[i])@ != (#[trigger] self.keys[j])@
    }

    proof fn lemma_view_at(&self, i: int)
        requires
            self.wf(),
            0 <= i < self.keys.len(),
        ensures
            self@.contains_key(self.keys[i]@),
            self@[self.keys[i]@] == self.vals[i],
    {
        let k = self.keys[i]@;
        assert(self@.dom().contains(k));
        let j = choose|j: int| 0 <= j < self.keys.len() && (#[trigger] self.keys[j])@ == k;
        if j != i {
            if j < i {
                assert(self.keys[j]@ != self.keys[i]@);
            } else {
                assert(self.keys[i]@ != self.keys[j]@);
            }
        }
    }

    /// An empty table.
    pub fn new() -> (r: Self)
        ensures
            r.wf(),
            r@ == Map::<Seq<char>, V>::empty(),
    {
        let r = StrMap { keys: Vec::new(), vals: Vec::new() };
        assert(r@ =~= Map::<Seq<char>, V>::empty());
        r
    }

    /// The position of `key`, when it has an entry.
    fn find(&self, key: &String) -> (r: Option<usize>)
        requires
            self.wf(),
        ensures
            match r {
                Some(i) => i < self.keys.len() && self.keys[i as int]@ == key@ && self@.contains_key(key@)
                    && self@[key@] == self.vals[i as int],
                None => !self@.contains_key(key@),
            },
    {
        let mut i: usize = 0;
        while i < self.keys.len()
            invariant
                i <= self.keys.len(),
                self.wf(),
                forall|k: int| 0 <= k < i ==> (#[trigger] self.keys[k])@ != key@,
            decreases self.keys.len() - i,
        {
            if self.keys[i] == *key {
                proof {
                    self.lemma_view_at(i as int);
                }
                return Some(i);
            }
            i = i + 1;
        }
        proof {
            if self@.contains_key(key@) {
                let j = choose|j: int| 0 <= j < self.keys.len() && (#[trigger] self.keys[j])@ == key@;
            }
        }
        None
    }

    /// The value of `key`, when it has one.
    pub fn get(&self, key: &String) -> (r: Option<&V>)
        requires
            self.wf(),
        ensures
            match r {
                Some(v) => self@.contains_key(key@) && self@[key@] == *v,
                None => !self@.contains_key(key@),
            },
    {
        match self.find(key) {
            Some(i) => Some(&self.vals[i]),
            None => None,
        }
    }

    /// Adds a key that has no entry yet.
    fn push_new(&mut self, key: String, v: V)
        requires
            old(self).wf(),
            !old(self)@.contains_key(key@),
        ensures
            final(self).wf(),
            final(self)@ == old(self)@.insert(key@, v),
            final(self).keys@.len() == old(self).keys@.len() + 1,
            final(self).keys@ == old(self).keys@.push(key),
            final(self).vals@ == old(self).vals@.push(v),
    {
        let ghost k = key@;
        let ghost n = self.keys@.len() as int;
        self.keys.push(key);
        self.vals.push(v);
        proof {
            assert forall|i: int, j: int| 0 <= i < j < self.keys.len() implies (#[trigger] self.keys[i])@
                != (#[trigger] self.keys[j])@ by {
                if j == n {
                    assert(old(self).keys[i] == self.keys[i]);
                    assert(old(self)@.contains_key(old(self).keys[i]@));
                } else {
                    assert(old(self).keys[i] == self.keys[i]);
                    assert(old(self).keys[j] == self.keys[j]);
                }
            }
            assert forall|q: Seq<char>| #[trigger] self@.contains_key(q) == old(self)@.insert(k, v).contains_key(q) by {
                if old(self)@.contains_key(q) {
                    let j = choose|j: int| 0 <= j < old(self).keys.len() && (#[trigger] old(self).keys[j])@ == q;
                    assert(self.keys[j]@ == q);
                }
                if q == k {
                    assert(self.keys[n]@ == q);
                }
                if self@.contains_key(q) {
                    let j = choose|j: int| 0 <= j < self.keys.len() && (#[trigger] self.keys[j])@ == q;
                    if j < n {
                        assert(old(self).keys[j]@ == q);
                    }
                }
            }
            assert forall|q: Seq<char>| #[trigger] self@.contains_key(q) implies self@[q] == old(self)@.insert(k, v)[q] by {
                let j = choose|j: int| 0 <= j < self.keys.len() && (#[trigger] self.keys[j])@ == q;
                self.lemma_view_at(j);
                if j < n {
                    old(self).lemma_view_at(j);
                }
            }
            assert(self@ =~= old(self)@.insert(k, v));
        }
    }

    /// Replaces the value at position `i`.
    fn set_at(&mut self, i: usize, v: V)
        requires
            old(self).wf(),
            i < old(self).keys@.len(),
        ensures
            final(self).wf(),
            final(self)@ == old(self)@.insert(old(self).keys@[i as int]@, v),
            final(self).keys@ == old(self).keys@,
    {
        let ghost k = self.keys@[i as int]@;
        self.vals.set(i, v);
        proof {
            assert forall|q: Seq<char>| #[trigger] self@.contains_key(q) == old(self)@.insert(k, v).contains_key(q) by {
                if old(self)@.contains_key(q) {
                    let j = choose|j: int| 0 <= j < old(self).keys.len() && (#[trigger] old(self).keys[j])@ == q;
                    assert(self.keys[j]@ == q);
                }
                if q == k {
                    assert(self.keys[i as int]@ == q);
                }
                if self@.contains_key(q) {
                    let j = choose|j: int| 0 <= j < self.keys.len() && (#[trigger] self.keys[j])@ == q;
                    assert(old(self).keys[j]@ == q);
                }
            }
            assert forall|q: Seq<char>| #[trigger] self@.contains_key(q) implies self@[q] == old(self)@.insert(k, v)[q] by {
                let j = choose|j: int| 0 <= j < self.keys.len() && (#[trigger] self.keys[j])@ == q;
                self.lemma_view_at(j);
                if j != i {
                    old(self).lemma_view_at(j);
                }
            }
            assert(self@ =~= old(self)@.insert(k, v));
        }
    }
}

impl<V> StrMap<V> {
    /// Sets `key` to `v`, replacing an earlier value.
    pub fn put(&mut self, key: String, v: V)
        requires
            old(self).wf(),
        ensures
            final(self).wf(),
            final(self)@ == old(self)@.insert(key@, v),
    {
        match self.find(&key) {
            Some(i) => {
                self.set_at(i, v);
            },
            None => {
                self.push_new(key, v);
            },
        }
    }
}

impl<T> StrMap<Vec<T>> {
    /// Appends `x` to the list at position `i`.
    fn push_at(&mut self, i: usize, x: T)
        requires
            old(self).wf(),
            i < old(self).keys@.len(),
        ensures
            final(self).wf(),
            final(self).keys@ == old(self).keys@,
            final(self)@ == old(self)@.insert(
                old(self).keys@[i as int]@,
                final(self).vals@[i as int],
            ),
            final(self).vals@[i as int]@ == old(self).vals@[i as int]@.push(x),
            final(self).vals@.len() == old(self).vals@.len(),
            forall|j: int| 0 <= j < old(self).vals@.len() && j != i ==> #[trigger] final(self).vals@[j] == old(self).vals@[j],
    {
        let ghost k = self.keys@[i as int]@;
        self.vals[i].push(x);
        proof {
            let v = self.vals@[i as int];
            assert forall|q: Seq<char>| #[trigger] self@.contains_key(q) == old(self)@.insert(k, v).contains_key(q) by {
                if old(self)@.contains_key(q) {
                    let j = choose|j: int| 0 <= j < old(self).keys.len() && (#[trigger] old(self).keys[j])@ == q;
                    assert(self.keys[j]@ == q);
                }
                if q == k {
                    assert(self.keys[i as int]@ == q);
                }
                if self@.contains_key(q) {
                    let j = choose|j: int| 0 <= j < self.keys.len() && (#[trigger] self.keys[j])@ == q;
                    assert(old(self).keys[j]@ == q);
                }
            }
            assert forall|q: Seq<char>| #[trigger] self@.contains_key(q) implies self@[q] == old(self)@.insert(k, v)[q] by {
                let j = choose|j: int| 0 <= j < self.keys.len() && (#[trigger] self.keys[j])@ == q;
                self.lemma_view_at(j);
                if j != i {
                    old(self).lemma_view_at(j);
                }
            }
            assert(self@ =~= old(self)@.insert(k, v));
        }
    }
}

/// A meeting block as `(day, start, end)`.
pub open spec fn block_view(b: MeetingBlock) -> (Seq<char>, i32, i32) {
    (b.day_code@, b.start_min, b.end_min)
}

/// The block that a meeting row contributes to its section: its trimmed day with the minutes of
/// both times, when both parse and the day is not blank.
pub open spec fn row_block(r: MeetingRecord) -> Option<(Seq<char>, i32, i32)> {
    match (spec_time_minutes(r.start_time@), spec_time_minutes(r.end_time@)) {
        (Ok(s), Ok(e)) => {
            let d = trim(r.day_code@);
            if d.len() == 0 {
                None
            } else {
                Some((d, s, e))
            }
        },
        _ => None,
    }
}

/// Earliest start minute per section key over the first `n` rows that contribute a block.
pub open spec fn spec_section_starts(rows: Seq<MeetingRecord>, n: int) -> Map<Seq<char>, i32>
    decreases n,
{
    if n <= 0 {
        Map::empty()
    } else {
        let m = spec_section_starts(rows, n - 1);
        match row_block(rows[n - 1]) {
            None => m,
            Some(b) => {
                let k = rows[n - 1].spec_key();
                if m.contains_key(k) && m[k] <= b.1 {
                    m
                } else {
                    m.insert(k, b.1)
                }
            },
        }
    }
}

/// Blocks per section key over the first `n` rows, in row order.
pub open spec fn spec_section_blocks(rows: Seq<MeetingRecord>, n: int) -> Map<
    Seq<char>,
    Seq<(Seq<char>, i32, i32)>,
>
    decreases n,
{
    if n <= 0 {
        Map::empty()
    } else {
        let m = spec_section_blocks(rows, n - 1);
        match row_block(rows[n - 1]) {
            None => m,
            Some(b) => {
                let k = rows[n - 1].spec_key();
                if m.contains_key(k) {
                    m.insert(k, m[k].push(b))
                } else {
                    m.insert(k, seq![b])
                }
            },
        }
    }
}

/// The block lists of a table as `(day, start, end)` sequences.
pub open spec fn blocks_table_view(m: Map<Seq<char>, Vec<MeetingBlock>>) -> Map<
    Seq<char>,
    Seq<(Seq<char>, i32, i32)>,
> {
    Map::new(|k: Seq<char>| m.contains_key(k), |k: Seq<char>| m[k]@.map_values(|b: MeetingBlock| block_view(b)))
}

/// Per-section earliest start minute and meeting blocks, from meeting rows: a row counts when
/// both its times parse and its trimmed day code is not blank.
pub fn build_meeting_blocks_and_starts(meetings: &[MeetingRecord]) -> (r: (StrMap<i32>, StrMap<Vec<MeetingBlock>>))
    ensures
        r.0.wf(),
        r.1.wf(),
        r.0@ == spec_section_starts(meetings@, meetings@.len() as int),
        blocks_table_view(r.1@) == spec_section_blocks(meetings@, meetings@.len() as int),
{
    let mut starts: StrMap<i32> = StrMap::new();
    let mut blocks: StrMap<Vec<MeetingBlock>> = StrMap::new();
    let mut n: usize = 0;
    proof {
        assert(blocks_table_view(blocks@) =~= Map::empty());
    }
    while n < meetings.len()
        invariant
            n <= meetings@.len(),
            starts.wf(),
            blocks.wf(),
            starts@ == spec_section_starts(meetings@, n as int),
            blocks_table_view(blocks@) == spec_section_blocks(meetings@, n as int),
        decreases meetings@.len() - n,
    {
        let row = &meetings[n];
        let key = row.section_key();
        let s = parse_time_to_minutes(row.start_time.as_str());
        let e = parse_time_to_minutes(row.end_time.as_str());
        match (s, e) {
            (Ok(s), Ok(e)) => {
                let day = trim_string(row.day_code.as_str());
                if !day.as_str().is_empty() {
                    let ghost b = (day@, s, e);
                    match starts.find(&key) {
                        Some(i) => {
                            if s < starts.vals[i] {
                                starts.set_at(i, s);
                            }
                        },
                        None => {
                            starts.push_new(key.clone(), s);
                        },
                    }
                    let ghost before = blocks@;
                    let blk = MeetingBlock { day_code: day, start_min: s, end_min: e };
                    match blocks.find(&key) {
                        Some(i) => {
                            blocks.push_at(i, blk);
                            proof {
                                let nv = blocks@[key@]@;
                                assert(nv == before[key@]@.push(blk));
                                assert(nv.map_values(|x: MeetingBlock| block_view(x)) =~= before[key@]@.map_values(
                                    |x: MeetingBlock| block_view(x),
                                ).push(b));
                                assert(blocks_table_view(blocks@) =~= blocks_table_view(before).insert(
                                    key@,
                                    blocks_table_view(before)[key@].push(b),
                                ));
                            }
                        },
                        None => {
                            let mut v: Vec<MeetingBlock> = Vec::new();
                            v.push(blk);
                            blocks.push_new(key, v);
                            proof {
                                assert(blocks@[key@]@.map_values(|x: MeetingBlock| block_view(x)) =~= seq![b]);
                                assert(blocks_table_view(blocks@) =~= blocks_table_view(before).insert(
                                    key@,
                                    seq![b],
                                ));
                            }
                        },
                    }
                }
            },
            _ => {},
        }
        n = n + 1;
    }
    (starts, blocks)
}

/// One section offering: subject, course and section codes, and `row_id`, the position of the
/// row in the loaded sections table (by which its credits are found again).
#[derive(Debug, Clone)]
pub struct SectionRow {
    pub subject_code: String,
    pub course_code: String,
    pub section: String,
    pub row_id: usize,
}

impl SectionRow {
    /// The section id `"{course_code}-{section}"`.
    pub open spec fn spec_key(&self) -> Seq<char> {
        key_of(self.course_code@, self.section@)
    }

    /// The section id `"{course_code}-{section}"`.
    pub fn section_id(&self) -> (r: String)
        ensures
            r@ == self.spec_key(),
    {
        let mut k = self.course_code.clone();
        k.append("-");
        k.append(self.section.as_str());
        proof {
            reveal_strlit("-");
            assert(k@ =~= key_of(self.course_code@, self.section@));
        }
        k
    }

    /// A copy of this row.
    pub fn copy(&self) -> (r: SectionRow)
        ensures
            r == *self,
    {
        SectionRow {
            subject_code: self.subject_code.clone(),
            course_code: self.course_code.clone(),
            section: self.section.clone(),
            row_id: self.row_id,
        }
    }
}

/// The section ids of `s`.
pub open spec fn sections_of(s: Seq<SectionRow>) -> Seq<Seq<char>> {
    s.map_values(|r: SectionRow| r.spec_key())
}

/// The normalized course codes of `s`, as the prerequisite check takes them.
pub open spec fn course_set(s: Seq<SectionRow>) -> Seq<Seq<char>> {
    s.map_values(|r: SectionRow| normalized_code(r.course_code@))
}

/// The row ids of `s`.
pub open spec fn row_ids(s: Seq<SectionRow>) -> Seq<usize> {
    s.map_values(|r: SectionRow| r.row_id)
}

/// The key by which two candidate schedules are the same: the section ids in lexicographic
/// order, joined with `|`.
pub open spec fn schedule_key(sections: Seq<Seq<char>>) -> Seq<char> {
    join_with(sort_strings(sections), "|"@)
}

/// The key of a list of section ids: sorted, joined with `|`.
pub fn unique_key_from_sections(sections: &Vec<String>) -> (r: String)
    ensures
        r@ == schedule_key(strings_view(sections@)),
{
    let sorted = sorted_strings(sections);
    join_strings(&sorted, "|")
}

/// A schedule's key does not depend on the order of its sections: the same section ids, each as
/// often, in any order, give the same key (so a schedule reached from two seeds in different
/// orders is recognised as one).
pub proof fn lemma_schedule_key_order_free(a: Seq<Seq<char>>, b: Seq<Seq<char>>)
    requires
        a.to_multiset() == b.to_multiset(),
    ensures
        schedule_key(a) == schedule_key(b),
{
    lemma_sort_order_free(a, b);
}

/// Some row of `stack` is of course `course` (codes compared exactly).
pub open spec fn uses_course(stack: Seq<SectionRow>, course: Seq<char>) -> bool {
    exists|j: int| 0 <= j < stack.len() && (#[trigger] stack[j]).course_code@ == course
}

/// How many rows of `stack` are of subject `subj`.
pub open spec fn subject_count(stack: Seq<SectionRow>, subj: Seq<char>) -> nat
    decreases stack.len(),
{
    if stack.len() == 0 {
        0
    } else {
        subject_count(stack.drop_last(), subj) + if stack.last().subject_code@ == subj {
            1nat
        } else {
            0nat
        }
    }
}

/// A section passes the earliest-start filter: the filter is off (`0`), or the section's
/// earliest start (`0` when it has no meetings) is not before `earliest`.
pub open spec fn starts_ok(starts: Map<Seq<char>, i32>, earliest: i32, id: Seq<char>) -> bool {
    earliest == 0 || (if starts.contains_key(id) {
        starts[id] as int
    } else {
        0
    }) >= earliest
}

/// The meeting blocks of section `id` (none when it has no entry).
pub open spec fn section_blocks(table: Map<Seq<char>, Vec<MeetingBlock>>, id: Seq<char>) -> Seq<MeetingBlock> {
    if table.contains_key(id) {
        table[id]@
    } else {
        seq![]
    }
}

/// The `(day, minute)` pairs that the sections of `stack` occupy.
pub open spec fn stack_minutes(table: Map<Seq<char>, Vec<MeetingBlock>>, stack: Seq<SectionRow>) -> Set<
    (Seq<char>, int),
>
    decreases stack.len(),
{
    if stack.len() == 0 {
        Set::empty()
    } else {
        stack_minutes(table, stack.drop_last()).union(
            blocks_minutes(section_blocks(table, stack.last().spec_key())),
        )
    }
}

/// `row` may follow `stack`: its course is new, its subject is below the per-subject cap, it
/// passes the earliest-start filter, and its meetings take no minute the stack occupies.
pub open spec fn can_extend(
    max_per_subject: int,
    earliest: i32,
    starts: Map<Seq<char>, i32>,
    table: Map<Seq<char>, Vec<MeetingBlock>>,
    stack: Seq<SectionRow>,
    row: SectionRow,
) -> bool {
    &&& !uses_course(stack, row.course_code@)
    &&& subject_count(stack, row.subject_code@) < max_per_subject
    &&& starts_ok(starts, earliest, row.spec_key())
    &&& accepts(stack_minutes(table, stack), section_blocks(table, row.spec_key()))
}

/// Every row of `stack` may follow the rows before it.
pub open spec fn admissible(
    max_per_subject: int,
    earliest: i32,
    starts: Map<Seq<char>, i32>,
    table: Map<Seq<char>, Vec<MeetingBlock>>,
    stack: Seq<SectionRow>,
) -> bool {
    forall|j: int|
        0 <= j < stack.len() ==> can_extend(
            max_per_subject,
            earliest,
            starts,
            table,
            stack.take(j),
            #[trigger] stack[j],
        )
}

proof fn lemma_stack_minutes_cover(table: Map<Seq<char>, Vec<MeetingBlock>>, stack: Seq<SectionRow>, a: int)
    requires
        0 <= a < stack.len(),
    ensures
        blocks_minutes(section_blocks(table, stack[a].spec_key())).subset_of(stack_minutes(table, stack)),
    decreases stack.len(),
{
    if a < stack.len() - 1 {
        lemma_stack_minutes_cover(table, stack.drop_last(), a);
        assert(stack.drop_last()[a] == stack[a]);
    }
}

/// The sections of an admissible stack never share a minute: for any two rows, the
/// `(day, minute)` pairs of their meetings are disjoint. With `lemma_half_open_overlap`, no two
/// picked sections have meetings `[s1, e1)` and `[s2, e2)` on one day with `s1 < e2 && s2 < e1`.
pub proof fn lemma_admissible_no_shared_minute(
    max_per_subject: int,
    earliest: i32,
    starts: Map<Seq<char>, i32>,
    table: Map<Seq<char>, Vec<MeetingBlock>>,
    stack: Seq<SectionRow>,
    a: int,
    b: int,
)
    requires
        admissible(max_per_subject, earliest, starts, table, stack),
        0 <= a < b < stack.len(),
    ensures
        blocks_minutes(section_blocks(table, stack[a].spec_key())).disjoint(
            blocks_minutes(section_blocks(table, stack[b].spec_key())),
        ),
        stack[a].course_code@ != stack[b].course_code@,
{
    let pre = stack.take(b);
    assert(can_extend(max_per_subject, earliest, starts, table, pre, stack[b]));
    assert(pre[a] == stack[a]);
    lemma_stack_minutes_cover(table, pre, a);
    assert(!uses_course(pre, stack[b].course_code@));
}

/// `s` is the rows of `pool` at the strictly increasing positions `idx`.
pub open spec fn picks(pool: Seq<SectionRow>, s: Seq<SectionRow>, idx: Seq<int>) -> bool {
    &&& idx.len() == s.len()
    &&& forall|j: int| 0 <= j < s.len() ==> 0 <= #[trigger] idx[j] < pool.len() && s[j] == pool[idx[j]]
    &&& forall|a: int, b: int| 0 <= a < b < idx.len() ==> #[trigger] idx[a] < #[trigger] idx[b]
}

/// The credit check accepted the rows of `s`: it may return `true` for their row ids.
pub open spec fn credits_accept<F: Fn(&Vec<usize>) -> bool>(credit_ok: F, s: Seq<SectionRow>) -> bool {
    exists|v: Vec<usize>| v@ == row_ids(s) && #[trigger] credit_ok.ensures((&v,), true)
}

/// A complete pick: `k` rows of `pool` in pool order, each admissible after the ones before it,
/// accepted by the credit check, and with prerequisites satisfied within the pick.
pub open spec fn valid_pick<F: Fn(&Vec<usize>) -> bool>(
    pool: Seq<SectionRow>,
    k: int,
    max_per_subject: int,
    earliest: i32,
    starts: Map<Seq<char>, i32>,
    table: Map<Seq<char>, Vec<MeetingBlock>>,
    credit_ok: F,
    prereqs: Map<Seq<char>, Seq<Seq<Seq<char>>>>,
    s: Seq<SectionRow>,
    idx: Seq<int>,
) -> bool {
    &&& picks(pool, s, idx)
    &&& s.len() == k
    &&& admissible(max_per_subject, earliest, starts, table, s)
    &&& credits_accept(credit_ok, s)
    &&& schedule_satisfies(prereqs, course_set(s))
}

/// The section lists of a list of candidates.
pub open spec fn candidates_view(v: Seq<Vec<String>>) -> Seq<Seq<Seq<char>>> {
    v.map_values(|r: Vec<String>| strings_view(r@))
}

/// `r` is the section list of some valid pick.
pub open spec fn is_candidate<F: Fn(&Vec<usize>) -> bool>(
    pool: Seq<SectionRow>,
    k: int,
    max_per_subject: int,
    earliest: i32,
    starts: Map<Seq<char>, i32>,
    table: Map<Seq<char>, Vec<MeetingBlock>>,
    credit_ok: F,
    prereqs: Map<Seq<char>, Seq<Seq<Seq<char>>>>,
    r: Seq<Seq<char>>,
) -> bool {
    exists|s: Seq<SectionRow>, idx: Seq<int>|
        #[trigger] valid_pick(pool, k, max_per_subject, earliest, starts, table, credit_ok, prereqs, s, idx)
            && r == sections_of(s)
}

/// The keys of a list of candidates.
pub open spec fn candidate_keys(v: Seq<Seq<Seq<char>>>) -> Seq<Seq<char>> {
    v.map_values(|r: Seq<Seq<char>>| schedule_key(r))
}

/// Whether some row of `stack` is of course `course`.
fn stack_uses_course(stack: &Vec<SectionRow>, course: &String) -> (r: bool)
    ensures
        r == uses_course(stack@, course@),
{
    let mut j: usize = 0;
    while j < stack.len()
        invariant
            j <= stack@.len(),
            forall|q: int| 0 <= q < j ==> (#[trigger] stack@[q]).course_code@ != course@,
        decreases stack@.len() - j,
    {
        if stack[j].course_code == *course {
            return true;
        }
        j = j + 1;
    }
    false
}

/// How many rows of `stack` are of subject `subj`.
fn stack_subject_count(stack: &Vec<SectionRow>, subj: &String) -> (r: usize)
    ensures
        r == subject_count(stack@, subj@),
{
    let mut c: usize = 0;
    let mut j: usize = 0;
    while j < stack.len()
        invariant
            j <= stack@.len(),
            c == subject_count(stack@.take(j as int), subj@),
            c <= j,
        decreases stack@.len() - j,
    {
        proof {
            assert(stack@.take(j + 1).drop_last() =~= stack@.take(j as int));
        }
        if stack[j].subject_code == *subj {
            c = c + 1;
        }
        j = j + 1;
    }
    proof {
        assert(stack@.take(stack@.len() as int) =~= stack@);
    }
    c
}

/// Whether a section passes the earliest-start filter (`earliest == 0` disables it; a section
/// without meetings counts as starting at minute 0).
pub fn section_passes_earliest(section_id: &String, earliest: i32, starts: &StrMap<i32>) -> (r: bool)
    requires
        starts.wf(),
    ensures
        r == starts_ok(starts@, earliest, section_id@),
{
    if earliest == 0 {
        return true;
    }
    let s = match starts.get(section_id) {
        Some(v) => *v,
        None => 0,
    };
    s >= earliest
}

/// The credit check cannot refuse the rows of `s`: whatever it returns for their row ids is `true`.
pub open spec fn credit_must_accept<F: Fn(&Vec<usize>) -> bool>(credit_ok: F, s: Seq<SectionRow>) -> bool {
    forall|v: Vec<usize>, b: bool| v@ == row_ids(s) && #[trigger] credit_ok.ensures((&v,), b) ==> b
}

/// A pick the search must find: `k` rows of `pool` in pool order, admissible, with prerequisites
/// satisfied, and that the credit check cannot refuse.
pub open spec fn wanted_pick<F: Fn(&Vec<usize>) -> bool>(
    pool: Seq<SectionRow>,
    k: int,
    max_per_subject: int,
    earliest: i32,
    starts: Map<Seq<char>, i32>,
    table: Map<Seq<char>, Vec<MeetingBlock>>,
    credit_ok: F,
    prereqs: Map<Seq<char>, Seq<Seq<Seq<char>>>>,
    s: Seq<SectionRow>,
    idx: Seq<int>,
) -> bool {
    &&& picks(pool, s, idx)
    &&& s.len() == k
    &&& admissible(max_per_subject, earliest, starts, table, s)
    &&& credit_must_accept(credit_ok, s)
    &&& schedule_satisfies(prereqs, course_set(s))
}

/// The rows of `pool` at positions `idx`.
pub open spec fn rows_at(pool: Seq<SectionRow>, idx: Seq<int>) -> Seq<SectionRow> {
    idx.map_values(|i: int| pool[i])
}

/// `a` and `b` agree before position `p`, and `a[p] < b[p]`.
pub open spec fn first_below_at(a: Seq<int>, b: Seq<int>, p: int) -> bool {
    &&& 0 <= p < a.len()
    &&& p < b.len()
    &&& forall|q: int| 0 <= q < p ==> a[q] == b[q]
    &&& a[p] < b[p]
}

/// `a` comes before `b` in lexicographic order.
pub open spec fn lex_before(a: Seq<int>, b: Seq<int>) -> bool {
    exists|p: int| #[trigger] first_below_at(a, b, p)
}

/// The candidates `r` come from the picks at positions `ws` of `pool`, in the order of a
/// depth-first search over the pool: each is a valid pick, the picks are in increasing
/// lexicographic order of their positions, and each candidate is the first one found with its
/// key: every pick the search must find that comes before candidate `j` has its key among the
/// first `j` candidates.
pub open spec fn search_order<F: Fn(&Vec<usize>) -> bool>(
    pool: Seq<SectionRow>,
    k: int,
    max_per_subject: int,
    earliest: i32,
    starts: Map<Seq<char>, i32>,
    table: Map<Seq<char>, Vec<MeetingBlock>>,
    credit_ok: F,
    prereqs: Map<Seq<char>, Seq<Seq<Seq<char>>>>,
    r: Seq<Seq<Seq<char>>>,
    ws: Seq<Seq<int>>,
) -> bool {
    &&& ws.len() == r.len()
    &&& forall|j: int|
        0 <= j < ws.len() ==> valid_pick(
            pool,
            k,
            max_per_subject,
            earliest,
            starts,
            table,
            credit_ok,
            prereqs,
            rows_at(pool, ws[j]),
            #[trigger] ws[j],
        ) && r[j] == sections_of(rows_at(pool, ws[j]))
    &&& forall|a: int, b: int| 0 <= a < b < ws.len() ==> lex_before(#[trigger] ws[a], #[trigger] ws[b])
    &&& forall|j: int, s: Seq<SectionRow>, idx: Seq<int>|
        0 <= j < ws.len() && #[trigger] wanted_pick(
            pool,
            k,
            max_per_subject,
            earliest,
            starts,
            table,
            credit_ok,
            prereqs,
            s,
            idx,
        ) && #[trigger] lex_before(idx, ws[j]) ==> candidate_keys(r.take(j)).contains(
            schedule_key(sections_of(s)),
        )
}

/// `q` extends `prefix`, with its next position (if any) at `start` or later.
pub open spec fn in_subtree(q: Seq<int>, prefix: Seq<int>, start: int) -> bool {
    &&& q.len() >= prefix.len()
    &&& q.take(prefix.len() as int) == prefix
    &&& q.len() > prefix.len() ==> q[prefix.len() as int] >= start
}

/// `q` comes before every sequence that extends `prefix` with a next position at `start` or later.
pub open spec fn before_subtree(q: Seq<int>, prefix: Seq<int>, start: int) -> bool {
    ||| exists|p: int| 0 <= p < prefix.len() && #[trigger] first_below_at(q, prefix, p)
    ||| (q.len() > prefix.len() && q.take(prefix.len() as int) == prefix && q[prefix.len() as int] < start)
}

proof fn lemma_before_is_lex_before(w: Seq<int>, q: Seq<int>, prefix: Seq<int>, start: int)
    requires
        before_subtree(w, prefix, start),
        in_subtree(q, prefix, start),
        q.len() > prefix.len() || !(w.len() > prefix.len() && w.take(prefix.len() as int) == prefix),
    ensures
        lex_before(w, q),
{
    let n = prefix.len() as int;
    if exists|p: int| 0 <= p < n && #[trigger] first_below_at(w, prefix, p) {
        let p = choose|p: int| 0 <= p < n && #[trigger] first_below_at(w, prefix, p);
        assert forall|t: int| 0 <= t < p implies w[t] == q[t] by {
            assert(q.take(n)[t] == q[t]);
        }
        assert(q.take(n)[p] == q[p]);
        assert(first_below_at(w, q, p));
    } else {
        assert forall|t: int| 0 <= t < n implies w[t] == q[t] by {
            assert(q.take(n)[t] == q[t]);
            assert(w.take(n)[t] == w[t]);
        }
        assert(first_below_at(w, q, n));
    }
}

proof fn lemma_before_child(w: Seq<int>, prefix: Seq<int>, i: int)
    requires
        before_subtree(w, prefix, i),
    ensures
        before_subtree(w, prefix.push(i), i + 1),
{
    let n = prefix.len() as int;
    let c = prefix.push(i);
    if exists|p: int| 0 <= p < n && #[trigger] first_below_at(w, prefix, p) {
        let p = choose|p: int| 0 <= p < n && #[trigger] first_below_at(w, prefix, p);
        assert(first_below_at(w, c, p));
    } else {
        assert forall|t: int| 0 <= t < n implies w[t] == c[t] by {
            assert(w.take(n)[t] == w[t]);
        }
        assert(first_below_at(w, c, n));
    }
}

proof fn lemma_child_before_next(q: Seq<int>, prefix: Seq<int>, start: int, i: int)
    requires
        in_subtree(q, prefix.push(i), i + 1),
        start <= i,
    ensures
        before_subtree(q, prefix, i + 1),
        in_subtree(q, prefix, start),
{
    let n = prefix.len() as int;
    assert(q.take(n + 1)[n] == q[n]);
    assert(q.take(n) =~= q.take(n + 1).take(n));
    assert(prefix.push(i).take(n) =~= prefix);
}

proof fn lemma_before_grows(w: Seq<int>, prefix: Seq<int>, i: int, j: int)
    requires
        before_subtree(w, prefix, i),
        i <= j,
    ensures
        before_subtree(w, prefix, j),
{
}

proof fn lemma_picks_rows_at(pool: Seq<SectionRow>, s: Seq<SectionRow>, idx: Seq<int>)
    requires
        picks(pool, s, idx),
    ensures
        s == rows_at(pool, idx),
{
    assert(s =~= rows_at(pool, idx));
}

/// `s` (at positions `idx2`) continues `stack` (at positions `idx`) with rows at positions
/// `start` or later.
pub open spec fn continues(stack: Seq<SectionRow>, idx: Seq<int>, start: int, s: Seq<SectionRow>, idx2: Seq<int>) -> bool {
    &&& stack.len() <= s.len()
    &&& idx.len() == stack.len()
    &&& idx2.len() == s.len()
    &&& s.take(stack.len() as int) == stack
    &&& idx2.take(idx.len() as int) == idx
    &&& forall|j: int| idx.len() <= j < idx2.len() ==> #[trigger] idx2[j] >= start
}

/// Whether `key` is among `seen`.
fn seen_contains(seen: &Vec<String>, key: &String) -> (r: bool)
    ensures
        r == strings_view(seen@).contains(key@),
{
    let mut j: usize = 0;
    while j < seen.len()
        invariant
            j <= seen@.len(),
            forall|q: int| 0 <= q < j ==> (#[trigger] seen@[q])@ != key@,
        decreases seen@.len() - j,
    {
        if seen[j] == *key {
            proof {
                assert(strings_view(seen@)[j as int] == key@);
            }
            return true;
        }
        j = j + 1;
    }
    proof {
        if strings_view(seen@).contains(key@) {
            let q = choose|q: int| 0 <= q < strings_view(seen@).len() && strings_view(seen@)[q] == key@;
            assert(seen@[q]@ == key@);
        }
    }
    false
}

/// The blocks of section `id` in `table`, or `empty` when it has none.
fn blocks_of<'a>(table: &'a StrMap<Vec<MeetingBlock>>, id: &String, empty: &'a Vec<MeetingBlock>) -> (r: &'a [MeetingBlock])
    requires
        table.wf(),
        empty@.len() == 0,
    ensures
        r@ == section_blocks(table@, id@),
{
    match table.get(id) {
        Some(v) => v.as_slice(),
        None => empty.as_slice(),
    }
}

/// At a complete pick: records it when the credit check and the prerequisites accept it and its
/// key is new.
fn record_pick<F: Fn(&Vec<usize>) -> bool>(
    pool: &Vec<SectionRow>,
    k: usize,
    max_per_subject: usize,
    earliest_start: i32,
    starts: &StrMap<i32>,
    meetings_by_section: &StrMap<Vec<MeetingBlock>>,
    credit_ok: &F,
    prereqs: &PrereqMap,
    stack: &Vec<SectionRow>,
    results: &mut Vec<Vec<String>>,
    seen: &mut Vec<String>,
    Ghost(idx): Ghost<Seq<int>>,
)
    requires
        prereqs.wf(),
        forall|v: &Vec<usize>| #[trigger] credit_ok.requires((v,)),
        stack@.len() == k,
        picks(pool@, stack@, idx),
        admissible(max_per_subject as int, earliest_start, starts@, meetings_by_section@, stack@),
        forall|i: int|
            0 <= i < old(results)@.len() ==> is_candidate(
                pool@,
                k as int,
                max_per_subject as int,
                earliest_start,
                starts@,
                meetings_by_section@,
                *credit_ok,
                prereqs@,
                #[trigger] candidates_view(old(results)@)[i],
            ),
        strings_view(old(seen)@) == candidate_keys(candidates_view(old(results)@)),
        candidate_keys(candidates_view(old(results)@)).no_duplicates(),
    ensures
        final(results)@ == old(results)@ || (final(results)@ == old(results)@.push(
            final(results)@[old(results)@.len() as int],
        ) && strings_view(final(results)@[old(results)@.len() as int]@) == sections_of(stack@) && valid_pick(
            pool@,
            k as int,
            max_per_subject as int,
            earliest_start,
            starts@,
            meetings_by_section@,
            *credit_ok,
            prereqs@,
            stack@,
            idx,
        )),
        forall|i: int|
            0 <= i < final(results)@.len() ==> is_candidate(
                pool@,
                k as int,
                max_per_subject as int,
                earliest_start,
                starts@,
                meetings_by_section@,
                *credit_ok,
                prereqs@,
                #[trigger] candidates_view(final(results)@)[i],
            ),
        strings_view(final(seen)@) == candidate_keys(candidates_view(final(results)@)),
        candidate_keys(candidates_view(final(results)@)).no_duplicates(),
        credit_must_accept(*credit_ok, stack@) && schedule_satisfies(prereqs@, course_set(stack@))
            ==> candidate_keys(candidates_view(final(results)@)).contains(schedule_key(sections_of(stack@))),
{
    let mut sections: Vec<String> = Vec::new();
    let mut ids: Vec<usize> = Vec::new();
    let mut courses: Vec<String> = Vec::new();
    let mut j: usize = 0;
    while j < stack.len()
        invariant
            j <= stack@.len(),
            sections@.len() == j,
            ids@.len() == j,
            courses@.len() == j,
            forall|q: int| 0 <= q < j ==> (#[trigger] sections@[q])@ == stack@[q].spec_key(),
            forall|q: int| 0 <= q < j ==> #[trigger] ids@[q] == stack@[q].row_id,
            forall|q: int| 0 <= q < j ==> (#[trigger] courses@[q])@ == normalized_code(stack@[q].course_code@),
        decreases stack@.len() - j,
    {
        sections.push(stack[j].section_id());
        ids.push(stack[j].row_id);
        let t = trim_string(stack[j].course_code.as_str());
        courses.push(to_uppercase(t.as_str()));
        j = j + 1;
    }
    proof {
        assert(strings_view(sections@) =~= sections_of(stack@));
        assert(ids@ =~= row_ids(stack@));
        assert(strings_view(courses@) =~= course_set(stack@));
    }
    let accepted = credit_ok(&ids);
    if !accepted {
        proof {
            if credit_must_accept(*credit_ok, stack@) {
                assert(credit_ok.ensures((&ids,), accepted));
            }
        }
        return ;
    }
    if !schedule_satisfies_prereq_groups(courses.as_slice(), prereqs) {
        return ;
    }
    let key = unique_key_from_sections(&sections);
    if seen_contains(seen, &key) {
        return ;
    }
    proof {
        assert(credits_accept(*credit_ok, stack@));
        assert(valid_pick(
            pool@,
            k as int,
            max_per_subject as int,
            earliest_start,
            starts@,
            meetings_by_section@,
            *credit_ok,
            prereqs@,
            stack@,
            idx,
        ));
    }
    let ghost old_results = results@;
    let ghost sv = strings_view(sections@);
    seen.push(key);
    results.push(sections);
    proof {
        assert(candidates_view(results@) =~= candidates_view(old_results).push(sv));
        assert(candidate_keys(candidates_view(results@)) =~= candidate_keys(candidates_view(old_results)).push(
            schedule_key(sv),
        ));
        assert(strings_view(seen@) =~= strings_view(old(seen)@).push(schedule_key(sv)));
        assert(candidate_keys(candidates_view(results@))[old_results.len() as int] == schedule_key(sv));
        assert forall|i: int|
            0 <= i < results@.len() implies is_candidate(
            pool@,
            k as int,
            max_per_subject as int,
            earliest_start,
            starts@,
            meetings_by_section@,
            *credit_ok,
            prereqs@,
            #[trigger] candidates_view(results@)[i],
        ) by {
            if i < old_results.len() {
                assert(candidates_view(results@)[i] == candidates_view(old_results)[i]);
            }
        }
    }
}

proof fn lemma_keys_grow(old: Seq<Vec<String>>, new: Seq<Vec<String>>)
    requires
        old.len() <= new.len(),
        forall|i: int| 0 <= i < old.len() ==> #[trigger] new[i] == old[i],
    ensures
        forall|key: Seq<char>|
            #[trigger] candidate_keys(candidates_view(old)).contains(key) ==> candidate_keys(
                candidates_view(new),
            ).contains(key),
{
    assert forall|key: Seq<char>| #[trigger] candidate_keys(candidates_view(old)).contains(key) implies candidate_keys(
        candidates_view(new),
    ).contains(key) by {
        let q = choose|q: int| 0 <= q < candidate_keys(candidates_view(old)).len() && candidate_keys(
            candidates_view(old),
        )[q] == key;
        assert(new[q] == old[q]);
        assert(candidate_keys(candidates_view(new))[q] == key);
    }
}

proof fn lemma_continues_push(
    pool: Seq<SectionRow>,
    stack: Seq<SectionRow>,
    idx: Seq<int>,
    start: int,
    i: int,
    s: Seq<SectionRow>,
    idx2: Seq<int>,
)
    requires
        picks(pool, s, idx2),
        continues(stack, idx, start, s, idx2),
        s.len() > stack.len(),
        idx2[stack.len() as int] == i,
    ensures
        s[stack.len() as int] == pool[i],
        s.take(stack.len() as int) == stack,
        continues(stack.push(pool[i]), idx.push(i), i + 1, s, idx2),
{
    let n = stack.len() as int;
    assert(s.take(n + 1) =~= stack.push(pool[i])) by {
        assert forall|j: int| 0 <= j < n implies s.take(n + 1)[j] == stack[j] by {
            assert(s.take(n)[j] == s[j]);
        }
    }
    assert(idx2.take(n + 1) =~= idx.push(i)) by {
        assert forall|j: int| 0 <= j < n implies idx2.take(n + 1)[j] == idx[j] by {
            assert(idx2.take(n)[j] == idx2[j]);
        }
    }
    assert forall|j: int| n + 1 <= j < idx2.len() implies #[trigger] idx2[j] >= i + 1 by {
        assert(idx2[n] < idx2[j]);
    }
}

/// Depth-first enumeration of admissible picks extending `stack` with rows at positions
/// `start..` of `pool`, in pool order; complete picks go to `record_pick`. Stops once `results`
/// holds `max_candidates` entries. `stack` and `occ` are restored before returning.
fn dfs_collect<F: Fn(&Vec<usize>) -> bool>(
    pool: &Vec<SectionRow>,
    k: usize,
    max_candidates: usize,
    earliest_start: i32,
    max_per_subject: usize,
    starts: &StrMap<i32>,
    meetings_by_section: &StrMap<Vec<MeetingBlock>>,
    credit_ok: &F,
    prereqs: &PrereqMap,
    start: usize,
    stack: &mut Vec<SectionRow>,
    occ: &mut WeeklyOccupancy,
    results: &mut Vec<Vec<String>>,
    seen: &mut Vec<String>,
    Ghost(idx): Ghost<Seq<int>>,
    Ghost(ws): Ghost<Seq<Seq<int>>>,
) -> (new_ws: Ghost<Seq<Seq<int>>>)
    requires
        starts.wf(),
        meetings_by_section.wf(),
        prereqs.wf(),
        old(occ).wf(),
        forall|v: &Vec<usize>| #[trigger] credit_ok.requires((v,)),
        old(stack)@.len() <= k,
        start <= pool@.len(),
        picks(pool@, old(stack)@, idx),
        forall|j: int| 0 <= j < idx.len() ==> #[trigger] idx[j] < start,
        admissible(max_per_subject as int, earliest_start, starts@, meetings_by_section@, old(stack)@),
        old(occ)@ == stack_minutes(meetings_by_section@, old(stack)@),
        forall|i: int|
            0 <= i < old(results)@.len() ==> is_candidate(
                pool@,
                k as int,
                max_per_subject as int,
                earliest_start,
                starts@,
                meetings_by_section@,
                *credit_ok,
                prereqs@,
                #[trigger] candidates_view(old(results)@)[i],
            ),
        strings_view(old(seen)@) == candidate_keys(candidates_view(old(results)@)),
        candidate_keys(candidates_view(old(results)@)).no_duplicates(),
        search_order(pool@, k as int, max_per_subject as int, earliest_start, starts@, meetings_by_section@, *credit_ok, prereqs@, candidates_view(old(results)@), ws),
        forall|j: int| 0 <= j < ws.len() ==> before_subtree(#[trigger] ws[j], idx, start as int),
        forall|s: Seq<SectionRow>, q: Seq<int>|
            #[trigger] wanted_pick(pool@, k as int, max_per_subject as int, earliest_start, starts@, meetings_by_section@, *credit_ok, prereqs@, s, q) && before_subtree(q, idx, start as int)
                ==> candidate_keys(candidates_view(old(results)@)).contains(schedule_key(sections_of(s))),
    ensures
        final(stack)@ == old(stack)@,
        final(occ).wf(),
        final(occ)@ == old(occ)@,
        old(results)@.len() <= final(results)@.len(),
        forall|i: int| 0 <= i < old(results)@.len() ==> #[trigger] final(results)@[i] == old(results)@[i],
        old(results)@.len() >= max_candidates ==> final(results)@ == old(results)@,
        old(results)@.len() < max_candidates ==> final(results)@.len() <= max_candidates,
        forall|i: int|
            0 <= i < final(results)@.len() ==> is_candidate(
                pool@,
                k as int,
                max_per_subject as int,
                earliest_start,
                starts@,
                meetings_by_section@,
                *credit_ok,
                prereqs@,
                #[trigger] candidates_view(final(results)@)[i],
            ),
        strings_view(final(seen)@) == candidate_keys(candidates_view(final(results)@)),
        candidate_keys(candidates_view(final(results)@)).no_duplicates(),
        final(results)@.len() < max_candidates ==> forall|s: Seq<SectionRow>, idx2: Seq<int>|
            continues(old(stack)@, idx, start as int, s, idx2) && #[trigger] wanted_pick(
                pool@,
                k as int,
                max_per_subject as int,
                earliest_start,
                starts@,
                meetings_by_section@,
                *credit_ok,
                prereqs@,
                s,
                idx2,
            ) ==> candidate_keys(candidates_view(final(results)@)).contains(schedule_key(sections_of(s))),
        search_order(pool@, k as int, max_per_subject as int, earliest_start, starts@, meetings_by_section@, *credit_ok, prereqs@, candidates_view(final(results)@), new_ws@),
        forall|j: int| 0 <= j < ws.len() ==> #[trigger] new_ws@[j] == ws[j],
        forall|j: int| ws.len() <= j < new_ws@.len() ==> in_subtree(#[trigger] new_ws@[j], idx, start as int),
    decreases k - old(stack)@.len(),
{
    if results.len() >= max_candidates {
        return Ghost(ws);
    }
    if stack.len() == k {
        record_pick(
            pool,
            k,
            max_per_subject,
            earliest_start,
            starts,
            meetings_by_section,
            credit_ok,
            prereqs,
            stack,
            results,
            seen,
            Ghost(idx),
        );
        proof {
            assert forall|s: Seq<SectionRow>, idx2: Seq<int>|
                continues(old(stack)@, idx, start as int, s, idx2) && #[trigger] wanted_pick(
                    pool@,
                    k as int,
                    max_per_subject as int,
                    earliest_start,
                    starts@,
                    meetings_by_section@,
                    *credit_ok,
                    prereqs@,
                    s,
                    idx2,
                ) implies candidate_keys(candidates_view(results@)).contains(schedule_key(sections_of(s))) by {
                assert(s =~= s.take(k as int));
            }
        }
        let ghost nw = if results@.len() > old(results)@.len() {
            ws.push(idx)
        } else {
            ws
        };
        proof {
            let r0 = candidates_view(old(results)@);
            let r1 = candidates_view(results@);
            let n0 = old(results)@.len() as int;
            lemma_picks_rows_at(pool@, stack@, idx);
            if results@.len() > old(results)@.len() {
                assert(r1 =~= r0.push(r1[n0]));
                assert forall|j: int| 0 <= j <= n0 implies #[trigger] r1.take(j) == r0.take(j) by {
                    assert(r1.take(j) =~= r0.take(j));
                }
                assert forall|j: int| 0 <= j < nw.len() implies valid_pick(
                    pool@, k as int, max_per_subject as int, earliest_start, starts@, meetings_by_section@, *credit_ok, prereqs@,
                    rows_at(pool@, nw[j]),
                    #[trigger] nw[j],
                ) && r1[j] == sections_of(rows_at(pool@, nw[j])) by {
                    if j < n0 {
                        assert(nw[j] == ws[j]);
                        assert(r1[j] == r0[j]);
                    }
                }
                assert forall|x: int, y: int| 0 <= x < y < nw.len() implies lex_before(#[trigger] nw[x], #[trigger] nw[y]) by {
                    assert(nw[x] == ws[x]);
                    if y == n0 {
                        assert(valid_pick(pool@, k as int, max_per_subject as int, earliest_start, starts@, meetings_by_section@, *credit_ok, prereqs@, rows_at(pool@, ws[x]), ws[x]));
                        assert(idx.take(idx.len() as int) =~= idx);
                        lemma_before_is_lex_before(ws[x], idx, idx, start as int);
                    } else {
                        assert(nw[y] == ws[y]);
                    }
                }
                assert forall|j: int, s: Seq<SectionRow>, q: Seq<int>|
                    0 <= j < nw.len() && #[trigger] wanted_pick(pool@, k as int, max_per_subject as int, earliest_start, starts@, meetings_by_section@, *credit_ok, prereqs@, s, q) && #[trigger] lex_before(q, nw[j])
                        implies candidate_keys(r1.take(j)).contains(schedule_key(sections_of(s))) by {
                    if j < n0 {
                        assert(nw[j] == ws[j]);
                        assert(r1.take(j) == r0.take(j));
                    } else {
                        let p = choose|p: int| #[trigger] first_below_at(q, idx, p);
                        assert(before_subtree(q, idx, start as int));
                        assert(r1.take(j) == r0.take(n0));
                        assert(r0.take(n0) =~= r0);
                    }
                }
                assert(idx.take(idx.len() as int) =~= idx);
                assert(in_subtree(nw[n0], idx, start as int));
            } else {
                assert(results@ == old(results)@);
            }
        }
        return Ghost(nw);
    }
    let empty: Vec<MeetingBlock> = Vec::new();
    let mut i = start;
    let ghost mut cur_ws = ws;
    while i < pool.len()
        invariant
            start <= i <= pool@.len(),
            stack@ == old(stack)@,
            stack@.len() < k,
            occ.wf(),
            occ@ == old(occ)@,
            empty@.len() == 0,
            starts.wf(),
            meetings_by_section.wf(),
            prereqs.wf(),
            forall|v: &Vec<usize>| #[trigger] credit_ok.requires((v,)),
            picks(pool@, old(stack)@, idx),
            forall|j: int| 0 <= j < idx.len() ==> #[trigger] idx[j] < start,
            admissible(max_per_subject as int, earliest_start, starts@, meetings_by_section@, old(stack)@),
            old(occ)@ == stack_minutes(meetings_by_section@, old(stack)@),
            old(results)@.len() <= results@.len(),
            results@.len() < max_candidates,
            forall|q: int| 0 <= q < old(results)@.len() ==> #[trigger] results@[q] == old(results)@[q],
            forall|q: int|
                0 <= q < results@.len() ==> is_candidate(
                    pool@,
                    k as int,
                    max_per_subject as int,
                    earliest_start,
                    starts@,
                    meetings_by_section@,
                    *credit_ok,
                    prereqs@,
                    #[trigger] candidates_view(results@)[q],
                ),
            strings_view(seen@) == candidate_keys(candidates_view(results@)),
            candidate_keys(candidates_view(results@)).no_duplicates(),
            forall|s: Seq<SectionRow>, idx2: Seq<int>|
                continues(old(stack)@, idx, start as int, s, idx2) && #[trigger] wanted_pick(
                    pool@,
                    k as int,
                    max_per_subject as int,
                    earliest_start,
                    starts@,
                    meetings_by_section@,
                    *credit_ok,
                    prereqs@,
                    s,
                    idx2,
                ) && idx2[old(stack)@.len() as int] < i ==> candidate_keys(candidates_view(results@)).contains(
                    schedule_key(sections_of(s)),
                ),
            search_order(pool@, k as int, max_per_subject as int, earliest_start, starts@, meetings_by_section@, *credit_ok, prereqs@, candidates_view(results@), cur_ws),
            cur_ws.len() >= ws.len(),
            forall|j: int| 0 <= j < ws.len() ==> #[trigger] cur_ws[j] == ws[j],
            forall|j: int| 0 <= j < cur_ws.len() ==> before_subtree(#[trigger] cur_ws[j], idx, i as int),
            forall|j: int| ws.len() <= j < cur_ws.len() ==> in_subtree(#[trigger] cur_ws[j], idx, start as int),
            forall|s: Seq<SectionRow>, q: Seq<int>|
                #[trigger] wanted_pick(pool@, k as int, max_per_subject as int, earliest_start, starts@, meetings_by_section@, *credit_ok, prereqs@, s, q) && before_subtree(q, idx, start as int)
                    ==> candidate_keys(candidates_view(results@)).contains(schedule_key(sections_of(s))),
        decreases pool@.len() - i,
    {
        let row = &pool[i];
        let ghost results_at_start = results@;
        let ghost ws_at_start = cur_ws;
        if !stack_uses_course(stack, &row.course_code) && stack_subject_count(stack, &row.subject_code)
            < max_per_subject {
            let id = row.section_id();
            if section_passes_earliest(&id, earliest_start, starts) {
                let blocks = blocks_of(meetings_by_section, &id, &empty);
                if occ.try_add_blocks(blocks) {
                    let ghost before_stack = stack@;
                    let ghost before_results = results@;
                    stack.push(row.copy());
                    proof {
                        let ns = stack@;
                        assert(ns.drop_last() =~= before_stack);
                        assert(stack_minutes(meetings_by_section@, ns) == added(old(occ)@, blocks@));
                        assert forall|j: int| 0 <= j < ns.len() implies can_extend(
                            max_per_subject as int,
                            earliest_start,
                            starts@,
                            meetings_by_section@,
                            ns.take(j),
                            #[trigger] ns[j],
                        ) by {
                            if j < before_stack.len() {
                                assert(ns.take(j) =~= before_stack.take(j));
                                assert(ns[j] == before_stack[j]);
                            } else {
                                assert(ns.take(j) =~= before_stack);
                            }
                        }
                        let nidx = idx.push(i as int);
                        assert forall|a: int, b: int| 0 <= a < b < nidx.len() implies #[trigger] nidx[a]
                            < #[trigger] nidx[b] by {
                            if b == idx.len() {
                                assert(nidx[a] == idx[a]);
                            } else {
                                assert(nidx[a] == idx[a]);
                                assert(nidx[b] == idx[b]);
                            }
                        }
                        assert forall|j: int| 0 <= j < ns.len() implies 0 <= #[trigger] nidx[j] < pool@.len()
                            && ns[j] == pool@[nidx[j]] by {
                            if j < idx.len() {
                                assert(nidx[j] == idx[j]);
                                assert(ns[j] == before_stack[j]);
                            }
                        }
                        assert(picks(pool@, ns, nidx));
                        assert forall|j: int| 0 <= j < nidx.len() implies #[trigger] nidx[j] < i + 1 by {
                            if j < idx.len() {
                                assert(nidx[j] == idx[j]);
                            }
                        }
                    }
                    proof {
                        let n = idx.len() as int;
                        let c = idx.push(i as int);
                        lemma_picks_rows_at(pool@, before_stack, idx);
                        assert forall|j: int| 0 <= j < cur_ws.len() implies before_subtree(
                            #[trigger] cur_ws[j],
                            idx.push(i as int),
                            i + 1,
                        ) by {
                            lemma_before_child(cur_ws[j], idx, i as int);
                        }
                        assert forall|s: Seq<SectionRow>, q: Seq<int>|
                            #[trigger] wanted_pick(pool@, k as int, max_per_subject as int, earliest_start, starts@, meetings_by_section@, *credit_ok, prereqs@, s, q) && before_subtree(q, idx.push(i as int), i + 1)
                                implies candidate_keys(candidates_view(results@)).contains(
                            schedule_key(sections_of(s)),
                        ) by {
                            if exists|p: int| 0 <= p < c.len() && #[trigger] first_below_at(q, c, p) {
                                let p = choose|p: int| 0 <= p < c.len() && #[trigger] first_below_at(q, c, p);
                                if p < n {
                                    assert(first_below_at(q, idx, p));
                                } else {
                                    assert(q.take(n) =~= idx);
                                    if q[n] >= start {
                                        lemma_picks_rows_at(pool@, s, q);
                                        assert(s.take(n) =~= before_stack);
                                        assert forall|j: int| n <= j < q.len() implies #[trigger] q[j] >= start by {
                                            if j > n {
                                                assert(q[n] < q[j]);
                                            }
                                        }
                                        assert(continues(old(stack)@, idx, start as int, s, q));
                                    }
                                }
                            } else {
                                assert(q.take(n + 1)[n] == q[n]);
                                assert(q.take(n) =~= q.take(n + 1).take(n));
                                assert(c.take(n) =~= idx);
                                assert(q[n] < q[n + 1]);
                            }
                        }
                    }
                    let ghost before_ws = cur_ws;
                    let got = dfs_collect(
                        pool,
                        k,
                        max_candidates,
                        earliest_start,
                        max_per_subject,
                        starts,
                        meetings_by_section,
                        credit_ok,
                        prereqs,
                        i + 1,
                        stack,
                        occ,
                        results,
                        seen,
                        Ghost(idx.push(i as int)),
                        Ghost(cur_ws),
                    );
                    proof {
                        cur_ws = got@;
                    }
                    stack.pop();
                    proof {
                        assert(stack@ =~= before_stack);
                        lemma_remove_undoes_add(old(occ)@, blocks@);
                    }
                    occ.remove_blocks(blocks);
                    proof {
                        assert forall|q: int| 0 <= q < old(results)@.len() implies #[trigger] results@[q]
                            == old(results)@[q] by {
                            assert(results@[q] == before_results[q]);
                        }
                    }
                    proof {
                        assert forall|j: int| 0 <= j < ws.len() implies #[trigger] cur_ws[j] == ws[j] by {
                            assert(cur_ws[j] == before_ws[j]);
                        }
                        assert forall|j: int| 0 <= j < cur_ws.len() implies before_subtree(
                            #[trigger] cur_ws[j],
                            idx,
                            i + 1,
                        ) by {
                            if j < before_ws.len() {
                                assert(cur_ws[j] == before_ws[j]);
                            } else {
                                lemma_child_before_next(cur_ws[j], idx, start as int, i as int);
                            }
                        }
                        assert forall|j: int| ws.len() <= j < cur_ws.len() implies in_subtree(
                            #[trigger] cur_ws[j],
                            idx,
                            start as int,
                        ) by {
                            if j < before_ws.len() {
                                assert(cur_ws[j] == before_ws[j]);
                            } else {
                                lemma_child_before_next(cur_ws[j], idx, start as int, i as int);
                            }
                        }
                        lemma_keys_grow(results_at_start, results@);
                    }
                    if results.len() >= max_candidates {
                        return Ghost(cur_ws);
                    }
                    proof {
                        lemma_keys_grow(results_at_start, results@);
                        assert forall|s: Seq<SectionRow>, idx2: Seq<int>|
                            continues(old(stack)@, idx, start as int, s, idx2) && #[trigger] wanted_pick(
                                pool@,
                                k as int,
                                max_per_subject as int,
                                earliest_start,
                                starts@,
                                meetings_by_section@,
                                *credit_ok,
                                prereqs@,
                                s,
                                idx2,
                            ) && idx2[old(stack)@.len() as int] == i implies candidate_keys(
                            candidates_view(results@),
                        ).contains(schedule_key(sections_of(s))) by {
                            lemma_continues_push(pool@, old(stack)@, idx, start as int, i as int, s, idx2);
                            assert(pool@[i as int] == *row);
                        }
                    }
                }
            }
        }
        proof {
            let n = old(stack)@.len() as int;
            assert forall|s: Seq<SectionRow>, idx2: Seq<int>|
                continues(old(stack)@, idx, start as int, s, idx2) && #[trigger] wanted_pick(
                    pool@,
                    k as int,
                    max_per_subject as int,
                    earliest_start,
                    starts@,
                    meetings_by_section@,
                    *credit_ok,
                    prereqs@,
                    s,
                    idx2,
                ) && idx2[n] < i + 1 implies candidate_keys(candidates_view(results@)).contains(
                schedule_key(sections_of(s)),
            ) by {
                lemma_keys_grow(results_at_start, results@);
                if idx2[n] == i {
                    lemma_continues_push(pool@, old(stack)@, idx, start as int, i as int, s, idx2);
                    assert(can_extend(
                        max_per_subject as int,
                        earliest_start,
                        starts@,
                        meetings_by_section@,
                        s.take(n),
                        s[n],
                    ));
                }
            }
        }
        proof {
            lemma_keys_grow(results_at_start, results@);
            if cur_ws == ws_at_start {
                assert forall|j: int| 0 <= j < cur_ws.len() implies before_subtree(
                    #[trigger] cur_ws[j],
                    idx,
                    i + 1,
                ) by {
                    lemma_before_grows(cur_ws[j], idx, i as int, i + 1);
                }
            }
        }
        i = i + 1;
    }
    proof {
        let n = old(stack)@.len() as int;
        assert forall|s: Seq<SectionRow>, idx2: Seq<int>|
            continues(old(stack)@, idx, start as int, s, idx2) && #[trigger] wanted_pick(
                pool@,
                k as int,
                max_per_subject as int,
                earliest_start,
                starts@,
                meetings_by_section@,
                *credit_ok,
                prereqs@,
                s,
                idx2,
            ) implies candidate_keys(candidates_view(results@)).contains(schedule_key(sections_of(s))) by {
            assert(idx2[n] < pool@.len());
        }
    }
    Ghost(cur_ws)
}

/// `rows` rotated left by `offset` (modulo its length); empty when `rows` is empty.
pub open spec fn rotated(rows: Seq<SectionRow>, offset: int) -> Seq<SectionRow> {
    if rows.len() == 0 {
        seq![]
    } else {
        let o = offset % (rows.len() as int);
        rows.skip(o) + rows.take(o)
    }
}

/// A rotation only reorders: it holds every row exactly as often as the input.
pub proof fn lemma_rotation_keeps_rows(rows: Seq<SectionRow>, offset: int)
    requires
        0 <= offset,
    ensures
        rotated(rows, offset).to_multiset() == rows.to_multiset(),
{
    if rows.len() > 0 {
        let o = offset % (rows.len() as int);
        assert(rows =~= rows.take(o) + rows.skip(o));
        vstd::seq_lib::lemma_seq_union_to_multiset_commutative(rows.take(o), rows.skip(o));
        assert(rotated(rows, offset) == rows.skip(o) + rows.take(o));
    } else {
        assert(rotated(rows, offset) =~= rows);
    }
}

/// `rows` rotated left by `offset` (modulo its length).
pub fn rotate_rows(rows: &Vec<SectionRow>, offset: usize) -> (r: Vec<SectionRow>)
    ensures
        r@ == rotated(rows@, offset as int),
{
    let n = rows.len();
    let mut out: Vec<SectionRow> = Vec::new();
    if n == 0 {
        proof {
            assert(out@ =~= rotated(rows@, offset as int));
        }
        return out;
    }
    let o = offset % n;
    let mut i = o;
    while i < n
        invariant
            o <= i <= n,
            n == rows@.len(),
            out@ == rows@.subrange(o as int, i as int),
        decreases n - i,
    {
        out.push(rows[i].copy());
        proof {
            assert(out@ =~= rows@.subrange(o as int, i + 1));
        }
        i = i + 1;
    }
    let mut i: usize = 0;
    while i < o
        invariant
            i <= o < n,
            n == rows@.len(),
            out@ == rows@.subrange(o as int, n as int) + rows@.subrange(0, i as int),
        decreases o - i,
    {
        out.push(rows[i].copy());
        proof {
            assert(out@ =~= rows@.subrange(o as int, n as int) + rows@.subrange(0, i + 1));
        }
        i = i + 1;
    }
    proof {
        assert(out@ =~= rotated(rows@, offset as int));
    }
    out
}

/// The candidates found from one seed: the depth-first enumeration over `rows` rotated by
/// `seed`, capped at `max_candidates`. Each is a valid pick of that rotated pool; they come in
/// lexicographic order of the picks' positions, each the first pick found with its key, and
/// when fewer than `max_candidates` came out, every pick the search must find is among them.
pub fn candidates_for_seed<F: Fn(&Vec<usize>) -> bool>(
    rows: &Vec<SectionRow>,
    seed: usize,
    k: usize,
    max_candidates: usize,
    earliest_start: i32,
    max_per_subject: usize,
    starts: &StrMap<i32>,
    meetings_by_section: &StrMap<Vec<MeetingBlock>>,
    credit_ok: &F,
    prereqs: &PrereqMap,
) -> (r: Vec<Vec<String>>)
    requires
        starts.wf(),
        meetings_by_section.wf(),
        prereqs.wf(),
        forall|v: &Vec<usize>| #[trigger] credit_ok.requires((v,)),
    ensures
        r@.len() <= max_candidates,
        forall|i: int|
            0 <= i < r@.len() ==> is_candidate(
                rotated(rows@, seed as int),
                k as int,
                max_per_subject as int,
                earliest_start,
                starts@,
                meetings_by_section@,
                *credit_ok,
                prereqs@,
                #[trigger] candidates_view(r@)[i],
            ),
        candidate_keys(candidates_view(r@)).no_duplicates(),
        r@.len() < max_candidates ==> forall|s: Seq<SectionRow>, idx: Seq<int>|
            #[trigger] wanted_pick(
                rotated(rows@, seed as int),
                k as int,
                max_per_subject as int,
                earliest_start,
                starts@,
                meetings_by_section@,
                *credit_ok,
                prereqs@,
                s,
                idx,
            ) ==> candidate_keys(candidates_view(r@)).contains(schedule_key(sections_of(s))),
        exists|ws: Seq<Seq<int>>| search_order(rotated(rows@, seed as int), k as int, max_per_subject as int, earliest_start, starts@, meetings_by_section@, *credit_ok, prereqs@, candidates_view(r@), ws),
{
    let pool = rotate_rows(rows, seed);
    let mut stack: Vec<SectionRow> = Vec::new();
    let mut occ = WeeklyOccupancy::new();
    let mut results: Vec<Vec<String>> = Vec::new();
    let mut seen: Vec<String> = Vec::new();
    proof {
        assert(stack_minutes(meetings_by_section@, stack@) =~= occ@);
        assert(strings_view(seen@) =~= candidate_keys(candidates_view(results@)));
        assert(picks(pool@, stack@, Seq::<int>::empty()));
    }
    proof {
        assert(candidates_view(results@) =~= Seq::<Seq<Seq<char>>>::empty());
        assert forall|s: Seq<SectionRow>, q: Seq<int>|
            #[trigger] wanted_pick(pool@, k as int, max_per_subject as int, earliest_start, starts@, meetings_by_section@, *credit_ok, prereqs@, s, q) implies !before_subtree(q, Seq::<int>::empty(), 0) by {
            if q.len() > 0 {
                assert(0 <= q[0]);
            }
        }
    }
    let got = dfs_collect(
        &pool,
        k,
        max_candidates,
        earliest_start,
        max_per_subject,
        starts,
        meetings_by_section,
        credit_ok,
        prereqs,
        0,
        &mut stack,
        &mut occ,
        &mut results,
        &mut seen,
        Ghost(Seq::<int>::empty()),
        Ghost(Seq::<Seq<int>>::empty()),
    );
    proof {
        assert forall|s: Seq<SectionRow>, idx: Seq<int>|
            #[trigger] wanted_pick(
                pool@,
                k as int,
                max_per_subject as int,
                earliest_start,
                starts@,
                meetings_by_section@,
                *credit_ok,
                prereqs@,
                s,
                idx,
            ) implies continues(Seq::<SectionRow>::empty(), Seq::<int>::empty(), 0, s, idx) by {
            assert(s.take(0) =~= Seq::<SectionRow>::empty());
            assert(idx.take(0) =~= Seq::<int>::empty());
        }
    }
    proof {
        assert(search_order(pool@, k as int, max_per_subject as int, earliest_start, starts@, meetings_by_section@, *credit_ok, prereqs@, candidates_view(results@), got@));
    }
    results
}

/// One merge step: `x` is added unless the merge has stopped (it stops right after the entry
/// that brings it to `max_candidates`) or an entry with the same key is already there.
pub open spec fn merge_step(acc: Seq<Seq<Seq<char>>>, x: Seq<Seq<char>>, max_candidates: int) -> Seq<
    Seq<Seq<char>>,
> {
    if (acc.len() > 0 && acc.len() >= max_candidates) || candidate_keys(acc).contains(schedule_key(x)) {
        acc
    } else {
        acc.push(x)
    }
}

/// `items` merged into `acc` in order.
pub open spec fn merge_into(acc: Seq<Seq<Seq<char>>>, items: Seq<Seq<Seq<char>>>, max_candidates: int) -> Seq<
    Seq<Seq<char>>,
>
    decreases items.len(),
{
    if items.len() == 0 {
        acc
    } else {
        merge_step(merge_into(acc, items.drop_last(), max_candidates), items.last(), max_candidates)
    }
}

/// The first `b` batches merged in order.
pub open spec fn merge_batches_spec(batches: Seq<Seq<Seq<Seq<char>>>>, max_candidates: int, b: int) -> Seq<
    Seq<Seq<char>>,
>
    decreases b,
{
    if b <= 0 {
        seq![]
    } else {
        merge_into(merge_batches_spec(batches, max_candidates, b - 1), batches[b - 1], max_candidates)
    }
}

/// A copy of a list of strings.
fn copy_strings(v: &Vec<String>) -> (r: Vec<String>)
    ensures
        r@ == v@,
{
    let mut out: Vec<String> = Vec::new();
    let mut i: usize = 0;
    while i < v.len()
        invariant
            i <= v@.len(),
            out@ == v@.take(i as int),
        decreases v@.len() - i,
    {
        out.push(v[i].clone());
        proof {
            assert(out@ =~= v@.take(i + 1));
        }
        i = i + 1;
    }
    proof {
        assert(v@.take(v@.len() as int) =~= v@);
    }
    out
}

/// Merges batches of candidates in order, skipping any whose key was already taken, and stops
/// right after the merged list reaches `max_candidates`.
pub fn merge_candidate_batches(batches: &Vec<Vec<Vec<String>>>, max_candidates: usize) -> (r: Vec<Vec<String>>)
    ensures
        candidates_view(r@) == merge_batches_spec(
            batches@.map_values(|b: Vec<Vec<String>>| candidates_view(b@)),
            max_candidates as int,
            batches@.len() as int,
        ),
{
    let ghost bv = batches@.map_values(|b: Vec<Vec<String>>| candidates_view(b@));
    let mut merged: Vec<Vec<String>> = Vec::new();
    let mut keys: Vec<String> = Vec::new();
    let mut b: usize = 0;
    proof {
        assert(candidates_view(merged@) =~= seq![]);
        assert(strings_view(keys@) =~= candidate_keys(candidates_view(merged@)));
    }
    while b < batches.len()
        invariant
            b <= batches@.len(),
            bv == batches@.map_values(|b: Vec<Vec<String>>| candidates_view(b@)),
            candidates_view(merged@) == merge_batches_spec(bv, max_candidates as int, b as int),
            strings_view(keys@) == candidate_keys(candidates_view(merged@)),
        decreases batches@.len() - b,
    {
        let batch = &batches[b];
        let ghost base = candidates_view(merged@);
        let ghost items = candidates_view(batch@);
        let mut j: usize = 0;
        proof {
            assert(items.take(0) =~= seq![]);
            assert(bv[b as int] == items);
        }
        while j < batch.len()
            invariant
                j <= batch@.len(),
                items == candidates_view(batch@),
                candidates_view(merged@) == merge_into(base, items.take(j as int), max_candidates as int),
                strings_view(keys@) == candidate_keys(candidates_view(merged@)),
            decreases batch@.len() - j,
        {
            let opt = &batch[j];
            let ghost acc = candidates_view(merged@);
            proof {
                assert(items.take(j + 1).drop_last() =~= items.take(j as int));
                assert(items.take(j + 1).last() == strings_view(opt@));
            }
            if !(merged.len() > 0 && merged.len() >= max_candidates) {
                let key = unique_key_from_sections(opt);
                if !seen_contains(&keys, &key) {
                    let ghost before = merged@;
                    let ghost before_keys = keys@;
                    keys.push(key);
                    merged.push(copy_strings(opt));
                    proof {
                        assert(candidates_view(merged@) =~= candidates_view(before).push(strings_view(opt@)));
                        assert(strings_view(keys@) =~= strings_view(before_keys).push(
                            schedule_key(strings_view(opt@)),
                        ));
                        assert(candidate_keys(candidates_view(merged@)) =~= candidate_keys(
                            candidates_view(before),
                        ).push(schedule_key(strings_view(opt@))));
                    }
                }
            }
            j = j + 1;
        }
        proof {
            assert(items.take(batch@.len() as int) =~= items);
        }
        b = b + 1;
    }
    merged
}

proof fn lemma_merge_into(acc: Seq<Seq<Seq<char>>>, items: Seq<Seq<Seq<char>>>, max_candidates: int)
    requires
        candidate_keys(acc).no_duplicates(),
    ensures
        candidate_keys(merge_into(acc, items, max_candidates)).no_duplicates(),
        forall|i: int|
            0 <= i < merge_into(acc, items, max_candidates).len() ==> acc.contains(
                #[trigger] merge_into(acc, items, max_candidates)[i],
            ) || items.contains(merge_into(acc, items, max_candidates)[i]),
        max_candidates >= 1 && acc.len() <= max_candidates ==> merge_into(acc, items, max_candidates).len()
            <= max_candidates,
        merge_into(acc, items, max_candidates).len() <= acc.len() + items.len(),
    decreases items.len(),
{
    if items.len() > 0 {
        let prev = merge_into(acc, items.drop_last(), max_candidates);
        lemma_merge_into(acc, items.drop_last(), max_candidates);
        let x = items.last();
        let res = merge_step(prev, x, max_candidates);
        assert forall|i: int| 0 <= i < res.len() implies acc.contains(#[trigger] res[i]) || items.contains(res[i]) by {
            if i < prev.len() {
                assert(res[i] == prev[i]);
                if items.drop_last().contains(prev[i]) {
                    let q = choose|q: int| 0 <= q < items.drop_last().len() && items.drop_last()[q] == prev[i];
                    assert(items[q] == prev[i]);
                }
            } else {
                assert(items[items.len() - 1] == x);
            }
        }
        if res != prev {
            assert(candidate_keys(res) =~= candidate_keys(prev).push(schedule_key(x)));
        }
    }
}

/// `x` is an entry of one of the first `b` batches.
pub open spec fn in_some_batch(batches: Seq<Seq<Seq<Seq<char>>>>, b: int, x: Seq<Seq<char>>) -> bool {
    exists|c: int| 0 <= c < b && #[trigger] batches[c].contains(x)
}

proof fn lemma_merge_batches(batches: Seq<Seq<Seq<Seq<char>>>>, max_candidates: int, b: int)
    requires
        0 <= b <= batches.len(),
    ensures
        candidate_keys(merge_batches_spec(batches, max_candidates, b)).no_duplicates(),
        forall|i: int|
            0 <= i < merge_batches_spec(batches, max_candidates, b).len() ==> in_some_batch(
                batches,
                b,
                #[trigger] merge_batches_spec(batches, max_candidates, b)[i],
            ),
        max_candidates >= 1 ==> merge_batches_spec(batches, max_candidates, b).len() <= max_candidates,
        (forall|c: int| 0 <= c < b ==> (#[trigger] batches[c]).len() == 0) ==> merge_batches_spec(
            batches,
            max_candidates,
            b,
        ).len() == 0,
    decreases b,
{
    if b > 0 {
        lemma_merge_batches(batches, max_candidates, b - 1);
        let prev = merge_batches_spec(batches, max_candidates, b - 1);
        lemma_merge_into(prev, batches[b - 1], max_candidates);
        let res = merge_batches_spec(batches, max_candidates, b);
        assert(res == merge_into(prev, batches[b - 1], max_candidates));
        assert forall|i: int| 0 <= i < res.len() implies in_some_batch(batches, b, #[trigger] res[i]) by {
            let x = res[i];
            if prev.contains(x) {
                let q = choose|q: int| 0 <= q < prev.len() && prev[q] == x;
                assert(in_some_batch(batches, b - 1, prev[q]));
                let c = choose|c: int| 0 <= c < b - 1 && #[trigger] batches[c].contains(prev[q]);
                assert(batches[c].contains(x));
            } else {
                assert(batches[b - 1].contains(x));
            }
        }
    }
}

proof fn lemma_merge_into_complete(acc: Seq<Seq<Seq<char>>>, items: Seq<Seq<Seq<char>>>, max_candidates: int)
    ensures
        merge_into(acc, items, max_candidates).len() < max_candidates ==> {
            &&& forall|key: Seq<char>|
                #[trigger] candidate_keys(acc).contains(key) ==> candidate_keys(
                    merge_into(acc, items, max_candidates),
                ).contains(key)
            &&& forall|i: int|
                0 <= i < items.len() ==> candidate_keys(merge_into(acc, items, max_candidates)).contains(
                    schedule_key(#[trigger] items[i]),
                )
        },
        acc.len() <= merge_into(acc, items, max_candidates).len(),
    decreases items.len(),
{
    if items.len() > 0 {
        let prev = merge_into(acc, items.drop_last(), max_candidates);
        lemma_merge_into_complete(acc, items.drop_last(), max_candidates);
        let x = items.last();
        let res = merge_into(acc, items, max_candidates);
        assert(res == merge_step(prev, x, max_candidates));
        if res.len() < max_candidates {
            let kp = candidate_keys(prev);
            let kr = candidate_keys(res);
            assert forall|key: Seq<char>| #[trigger] kp.contains(key) implies kr.contains(key) by {
                let q = choose|q: int| 0 <= q < kp.len() && kp[q] == key;
                if res != prev {
                    assert(kr[q] == kp[q]);
                }
            }
            assert(kr.contains(schedule_key(x))) by {
                if res != prev {
                    assert(kr[prev.len() as int] == schedule_key(x));
                }
            }
            assert forall|i: int| 0 <= i < items.len() implies kr.contains(schedule_key(#[trigger] items[i])) by {
                if i < items.len() - 1 {
                    assert(items.drop_last()[i] == items[i]);
                    assert(kp.contains(schedule_key(items.drop_last()[i])));
                }
            }
        }
    }
}

proof fn lemma_merge_batches_complete(batches: Seq<Seq<Seq<Seq<char>>>>, max_candidates: int, b: int)
    requires
        0 <= b <= batches.len(),
    ensures
        merge_batches_spec(batches, max_candidates, b).len() < max_candidates ==> forall|c: int, i: int|
            0 <= c < b && 0 <= i < batches[c].len() ==> candidate_keys(
                merge_batches_spec(batches, max_candidates, b),
            ).contains(schedule_key(#[trigger] batches[c][i])),
    decreases b,
{
    if b > 0 {
        let prev = merge_batches_spec(batches, max_candidates, b - 1);
        lemma_merge_batches_complete(batches, max_candidates, b - 1);
        lemma_merge_into_complete(prev, batches[b - 1], max_candidates);
        let res = merge_batches_spec(batches, max_candidates, b);
        assert(res == merge_into(prev, batches[b - 1], max_candidates));
    }
}

proof fn lemma_distinct_keys_fit(a: Seq<Seq<char>>, b: Seq<Seq<char>>)
    requires
        a.no_duplicates(),
        b.no_duplicates(),
        forall|i: int| 0 <= i < a.len() ==> b.contains(#[trigger] a[i]),
    ensures
        a.len() <= b.len(),
{
    a.unique_seq_to_set();
    b.unique_seq_to_set();
    assert(a.to_set().subset_of(b.to_set())) by {
        assert forall|x: Seq<char>| a.to_set().contains(x) implies b.to_set().contains(x) by {
            let i = choose|i: int| 0 <= i < a.len() && a[i] == x;
        }
    }
    vstd::set_lib::lemma_len_subset(a.to_set(), b.to_set());
}

/// What one seed's search gives, as `candidates_for_seed` states it: at most `max_candidates`
/// candidates with distinct keys, in depth-first order over `pool` with each the first of its
/// key, and every pick the search must find among them when the cap was not reached.
pub open spec fn seed_batch<F: Fn(&Vec<usize>) -> bool>(
    pool: Seq<SectionRow>,
    k: int,
    max_per_subject: int,
    earliest: i32,
    starts: Map<Seq<char>, i32>,
    table: Map<Seq<char>, Vec<MeetingBlock>>,
    credit_ok: F,
    prereqs: Map<Seq<char>, Seq<Seq<Seq<char>>>>,
    b: Seq<Seq<Seq<char>>>,
    max_candidates: int,
) -> bool {
    &&& b.len() <= max_candidates
    &&& candidate_keys(b).no_duplicates()
    &&& exists|ws: Seq<Seq<int>>|
        search_order(pool, k, max_per_subject, earliest, starts, table, credit_ok, prereqs, b, ws)
    &&& b.len() < max_candidates ==> forall|s: Seq<SectionRow>, idx: Seq<int>|
        #[trigger] wanted_pick(pool, k, max_per_subject, earliest, starts, table, credit_ok, prereqs, s, idx)
            ==> candidate_keys(b).contains(schedule_key(sections_of(s)))
}

proof fn lemma_lex_trichotomy(a: Seq<int>, b: Seq<int>)
    requires
        a.len() == b.len(),
    ensures
        a == b || lex_before(a, b) || lex_before(b, a),
    decreases a.len(),
{
    if a.len() == 0 {
        assert(a =~= b);
    } else if a[0] != b[0] {
        if a[0] < b[0] {
            assert(first_below_at(a, b, 0));
        } else {
            assert(first_below_at(b, a, 0));
        }
    } else {
        let a1 = a.drop_first();
        let b1 = b.drop_first();
        lemma_lex_trichotomy(a1, b1);
        if a1 == b1 {
            assert forall|i: int| 0 <= i < a.len() implies a[i] == b[i] by {
                if i > 0 {
                    assert(a[i] == a1[i - 1] && b[i] == b1[i - 1]);
                }
            }
            assert(a =~= b);
        } else if lex_before(a1, b1) {
            let p = choose|p: int| #[trigger] first_below_at(a1, b1, p);
            assert forall|q: int| 0 <= q < p + 1 implies a[q] == b[q] by {
                if q > 0 {
                    assert(a[q] == a1[q - 1] && b[q] == b1[q - 1]);
                }
            }
            assert(a[p + 1] == a1[p] && b[p + 1] == b1[p]);
            assert(first_below_at(a, b, p + 1));
        } else {
            let p = choose|p: int| #[trigger] first_below_at(b1, a1, p);
            assert forall|q: int| 0 <= q < p + 1 implies b[q] == a[q] by {
                if q > 0 {
                    assert(a[q] == a1[q - 1] && b[q] == b1[q - 1]);
                }
            }
            assert(a[p + 1] == a1[p] && b[p + 1] == b1[p]);
            assert(first_below_at(b, a, p + 1));
        }
    }
}

/// The search result is determined by its inputs: when the credit check decides every pick
/// (whatever it may return for a valid pick, it must return), two batches that both meet the
/// seed contract are the same.
pub proof fn lemma_seed_batch_determined<F: Fn(&Vec<usize>) -> bool>(
    pool: Seq<SectionRow>,
    k: int,
    max_per_subject: int,
    earliest: i32,
    starts: Map<Seq<char>, i32>,
    table: Map<Seq<char>, Vec<MeetingBlock>>,
    credit_ok: F,
    prereqs: Map<Seq<char>, Seq<Seq<Seq<char>>>>,
    b1: Seq<Seq<Seq<char>>>,
    b2: Seq<Seq<Seq<char>>>,
    max_candidates: int,
)
    requires
        seed_batch(pool, k, max_per_subject, earliest, starts, table, credit_ok, prereqs, b1, max_candidates),
        seed_batch(pool, k, max_per_subject, earliest, starts, table, credit_ok, prereqs, b2, max_candidates),
        forall|s: Seq<SectionRow>| #[trigger] credits_accept(credit_ok, s) ==> credit_must_accept(credit_ok, s),
    ensures
        b1 == b2,
{
    let ws1 = choose|ws: Seq<Seq<int>>|
        search_order(pool, k, max_per_subject, earliest, starts, table, credit_ok, prereqs, b1, ws);
    let ws2 = choose|ws: Seq<Seq<int>>|
        search_order(pool, k, max_per_subject, earliest, starts, table, credit_ok, prereqs, b2, ws);
    let m = if b1.len() <= b2.len() {
        b1.len() as int
    } else {
        b2.len() as int
    };
    // The two agree position by position up to the shorter length.
    assert forall|j: int| 0 <= j < m implies #[trigger] b1[j] == b2[j] by {
        lemma_batches_agree_upto(pool, k, max_per_subject, earliest, starts, table, credit_ok, prereqs, b1, b2, ws1, ws2, j);
        assert(b1.take(j + 1)[j] == b1[j] && b2.take(j + 1)[j] == b2[j]);
    }
    if b1.len() != b2.len() {
        let (short, long, wl) = if b1.len() < b2.len() {
            (b1, b2, ws2)
        } else {
            (b2, b1, ws1)
        };
        let n = short.len() as int;
        let x = rows_at(pool, wl[n]);
        assert(valid_pick(pool, k, max_per_subject, earliest, starts, table, credit_ok, prereqs, x, wl[n]));
        assert(credits_accept(credit_ok, x));
        assert(wanted_pick(pool, k, max_per_subject, earliest, starts, table, credit_ok, prereqs, x, wl[n]));
        assert(candidate_keys(short).contains(schedule_key(sections_of(x))));
        let q = choose|q: int| 0 <= q < n && candidate_keys(short)[q] == schedule_key(sections_of(x));
        assert(long[q] == short[q]);
        assert(candidate_keys(long)[q] == candidate_keys(long)[n]);
    } else {
        assert(b1 =~= b2);
    }
}

proof fn lemma_batches_agree_upto<F: Fn(&Vec<usize>) -> bool>(
    pool: Seq<SectionRow>,
    k: int,
    max_per_subject: int,
    earliest: i32,
    starts: Map<Seq<char>, i32>,
    table: Map<Seq<char>, Vec<MeetingBlock>>,
    credit_ok: F,
    prereqs: Map<Seq<char>, Seq<Seq<Seq<char>>>>,
    b1: Seq<Seq<Seq<char>>>,
    b2: Seq<Seq<Seq<char>>>,
    ws1: Seq<Seq<int>>,
    ws2: Seq<Seq<int>>,
    j: int,
)
    requires
        search_order(pool, k, max_per_subject, earliest, starts, table, credit_ok, prereqs, b1, ws1),
        search_order(pool, k, max_per_subject, earliest, starts, table, credit_ok, prereqs, b2, ws2),
        candidate_keys(b1).no_duplicates(),
        candidate_keys(b2).no_duplicates(),
        forall|s: Seq<SectionRow>| #[trigger] credits_accept(credit_ok, s) ==> credit_must_accept(credit_ok, s),
        0 <= j < b1.len(),
        j < b2.len(),
    ensures
        b1.take(j + 1) == b2.take(j + 1),
    decreases j,
{
    if j > 0 {
        lemma_batches_agree_upto(pool, k, max_per_subject, earliest, starts, table, credit_ok, prereqs, b1, b2, ws1, ws2, j - 1);
    }
    assert(b1.take(j) =~= b1.take(j + 1).take(j));
    assert(b2.take(j) =~= b2.take(j + 1).take(j));
    if j > 0 {
        assert(b1.take(j) == b2.take(j));
    } else {
        assert(b1.take(0) =~= b2.take(0));
    }
    let w1 = ws1[j];
    let w2 = ws2[j];
    let x1 = rows_at(pool, w1);
    let x2 = rows_at(pool, w2);
    assert(valid_pick(pool, k, max_per_subject, earliest, starts, table, credit_ok, prereqs, x1, w1));
    assert(valid_pick(pool, k, max_per_subject, earliest, starts, table, credit_ok, prereqs, x2, w2));
    assert(credits_accept(credit_ok, x1) && credits_accept(credit_ok, x2));
    lemma_lex_trichotomy(w1, w2);
    if lex_before(w1, w2) {
        assert(wanted_pick(pool, k, max_per_subject, earliest, starts, table, credit_ok, prereqs, x1, w1));
        assert(candidate_keys(b2.take(j)).contains(schedule_key(sections_of(x1))));
        assert(candidate_keys(b1.take(j)) =~= candidate_keys(b1).take(j));
        let q = choose|q: int| 0 <= q < j && candidate_keys(b1.take(j))[q] == schedule_key(sections_of(x1));
        assert(candidate_keys(b1)[q] == candidate_keys(b1)[j]);
    } else if lex_before(w2, w1) {
        assert(wanted_pick(pool, k, max_per_subject, earliest, starts, table, credit_ok, prereqs, x2, w2));
        assert(candidate_keys(b1.take(j)).contains(schedule_key(sections_of(x2))));
        assert(candidate_keys(b2.take(j)) =~= candidate_keys(b2).take(j));
        let q = choose|q: int| 0 <= q < j && candidate_keys(b2.take(j))[q] == schedule_key(sections_of(x2));
        assert(candidate_keys(b2)[q] == candidate_keys(b2)[j]);
    }
    assert(b1.take(j + 1) =~= b1.take(j).push(b1[j]));
    assert(b2.take(j + 1) =~= b2.take(j).push(b2[j]));
}

/// The rotation offsets the search starts from: `0`, `n/7`, `n/5`, `n/3` and `n/2` for `n` rows.
pub open spec fn seeds_of(n: int) -> Seq<int> {
    seq![0, n / 7, n / 5, n / 3, n / 2]
}

/// Candidate schedules of `k` sections: one depth-first enumeration per seed (each over the rows
/// rotated by that seed, capped at `max_candidates`, as `candidates_for_seed` gives it), merged
/// in seed order without repeated keys and cut right after `max_candidates` entries. Every
/// entry is a valid pick of one of the rotated pools; none when `rows` is empty or `k` is 0.
pub fn build_combinational_candidates<F: Fn(&Vec<usize>) -> bool>(
    rows: &Vec<SectionRow>,
    k: usize,
    max_candidates: usize,
    earliest_start: i32,
    max_per_subject: usize,
    starts: &StrMap<i32>,
    meetings_by_section: &StrMap<Vec<MeetingBlock>>,
    credit_ok: &F,
    prereqs: &PrereqMap,
) -> (r: Vec<Vec<String>>)
    requires
        starts.wf(),
        meetings_by_section.wf(),
        prereqs.wf(),
        forall|v: &Vec<usize>| #[trigger] credit_ok.requires((v,)),
    ensures
        (rows@.len() == 0 || k == 0) ==> r@.len() == 0,
        r@.len() <= max_candidates,
        candidate_keys(candidates_view(r@)).no_duplicates(),
        forall|i: int|
            0 <= i < r@.len() ==> exists|c: int|
                0 <= c < 5 && is_candidate(
                    rotated(rows@, seeds_of(rows@.len() as int)[c]),
                    k as int,
                    max_per_subject as int,
                    earliest_start,
                    starts@,
                    meetings_by_section@,
                    *credit_ok,
                    prereqs@,
                    #[trigger] candidates_view(r@)[i],
                ),
        k > 0 && r@.len() < max_candidates ==> forall|c: int, s: Seq<SectionRow>, idx: Seq<int>|
            0 <= c < 5 && #[trigger] wanted_pick(
                rotated(rows@, seeds_of(rows@.len() as int)[c]),
                k as int,
                max_per_subject as int,
                earliest_start,
                starts@,
                meetings_by_section@,
                *credit_ok,
                prereqs@,
                s,
                idx,
            ) ==> candidate_keys(candidates_view(r@)).contains(schedule_key(sections_of(s))),
        !(rows@.len() == 0 || k == 0) ==> exists|batches: Seq<Seq<Seq<Seq<char>>>>|
            batches.len() == 5 && candidates_view(r@) == merge_batches_spec(batches, max_candidates as int, 5)
                && forall|c: int|
                0 <= c < 5 ==> seed_batch(rotated(rows@, seeds_of(rows@.len() as int)[c]), k as int, max_per_subject as int, earliest_start, starts@, meetings_by_section@, *credit_ok, prereqs@, #[trigger] batches[c], max_candidates as int),
{
    if rows.len() == 0 || k == 0 {
        let r: Vec<Vec<String>> = Vec::new();
        proof {
            assert forall|c: int, s: Seq<SectionRow>, idx: Seq<int>|
                k > 0 && 0 <= c < 5 && #[trigger] wanted_pick(
                    rotated(rows@, seeds_of(rows@.len() as int)[c]),
                    k as int,
                    max_per_subject as int,
                    earliest_start,
                    starts@,
                    meetings_by_section@,
                    *credit_ok,
                    prereqs@,
                    s,
                    idx,
                ) implies false by {
                assert(0 <= idx[0] < rotated(rows@, seeds_of(rows@.len() as int)[c]).len());
            }
        }
        return r;
    }
    let n = rows.len();
    let seeds: Vec<usize> = vec![0, n / 7, n / 5, n / 3, n / 2];
    let mut batches: Vec<Vec<Vec<String>>> = Vec::new();
    let mut t: usize = 0;
    let ghost mut wss: Seq<Seq<Seq<int>>> = Seq::empty();
    while t < 5
        invariant
            t <= 5,
            n == rows@.len(),
            seeds@ == seq![0usize, n / 7, n / 5, n / 3, n / 2],
            batches@.len() == t,
            starts.wf(),
            meetings_by_section.wf(),
            prereqs.wf(),
            forall|v: &Vec<usize>| #[trigger] credit_ok.requires((v,)),
            forall|c: int| 0 <= c < t ==> (#[trigger] batches@[c])@.len() <= max_candidates,
            forall|c: int| 0 <= c < t ==> candidate_keys(candidates_view((#[trigger] batches@[c])@)).no_duplicates(),
            forall|c: int, s: Seq<SectionRow>, idx: Seq<int>|
                0 <= c < t && batches@[c]@.len() < max_candidates && #[trigger] wanted_pick(
                    rotated(rows@, seeds_of(rows@.len() as int)[c]),
                    k as int,
                    max_per_subject as int,
                    earliest_start,
                    starts@,
                    meetings_by_section@,
                    *credit_ok,
                    prereqs@,
                    s,
                    idx,
                ) ==> candidate_keys(candidates_view(batches@[c]@)).contains(schedule_key(sections_of(s))),
            forall|c: int, i: int|
                0 <= c < t && 0 <= i < batches@[c]@.len() ==> is_candidate(
                    rotated(rows@, seeds_of(rows@.len() as int)[c]),
                    k as int,
                    max_per_subject as int,
                    earliest_start,
                    starts@,
                    meetings_by_section@,
                    *credit_ok,
                    prereqs@,
                    #[trigger] candidates_view(batches@[c]@)[i],
                ),
            wss.len() == t,
            forall|c: int|
                0 <= c < t ==> search_order(rotated(rows@, seeds_of(rows@.len() as int)[c]), k as int, max_per_subject as int, earliest_start, starts@, meetings_by_section@, *credit_ok, prereqs@, candidates_view((#[trigger] batches@[c])@), wss[c]),
        decreases 5 - t,
    {
        let b = candidates_for_seed(
            rows,
            seeds[t],
            k,
            max_candidates,
            earliest_start,
            max_per_subject,
            starts,
            meetings_by_section,
            credit_ok,
            prereqs,
        );
        let ghost before = batches@;
        let ghost before_b = b@;
        batches.push(b);
        proof {
            assert(seeds_of(n as int)[t as int] == seeds@[t as int] as int);
            assert forall|c: int, i: int|
                0 <= c < t + 1 && 0 <= i < batches@[c]@.len() implies is_candidate(
                rotated(rows@, seeds_of(rows@.len() as int)[c]),
                k as int,
                max_per_subject as int,
                earliest_start,
                starts@,
                meetings_by_section@,
                *credit_ok,
                prereqs@,
                #[trigger] candidates_view(batches@[c]@)[i],
            ) by {
                if c < t {
                    assert(batches@[c] == before[c]);
                }
            }
            assert forall|c: int, s: Seq<SectionRow>, idx: Seq<int>|
                0 <= c < t + 1 && batches@[c]@.len() < max_candidates && #[trigger] wanted_pick(
                    rotated(rows@, seeds_of(rows@.len() as int)[c]),
                    k as int,
                    max_per_subject as int,
                    earliest_start,
                    starts@,
                    meetings_by_section@,
                    *credit_ok,
                    prereqs@,
                    s,
                    idx,
                ) implies candidate_keys(candidates_view(batches@[c]@)).contains(schedule_key(sections_of(s))) by {
                if c < t {
                    assert(batches@[c] == before[c]);
                }
            }
            assert forall|c: int| 0 <= c < t + 1 implies candidate_keys(
                candidates_view((#[trigger] batches@[c])@),
            ).no_duplicates() by {
                if c < t {
                    assert(batches@[c] == before[c]);
                }
            }
            let ws = choose|ws: Seq<Seq<int>>|
                search_order(rotated(rows@, seeds@[t as int] as int), k as int, max_per_subject as int, earliest_start, starts@, meetings_by_section@, *credit_ok, prereqs@, candidates_view(before_b), ws);
            let before_wss = wss;
            wss = wss.push(ws);
            assert forall|c: int| 0 <= c < t + 1 implies search_order(rotated(rows@, seeds_of(rows@.len() as int)[c]), k as int, max_per_subject as int, earliest_start, starts@, meetings_by_section@, *credit_ok, prereqs@, candidates_view((#[trigger] batches@[c])@), wss[c]) by {
                if c < t {
                    assert(batches@[c] == before[c]);
                    assert(wss[c] == before_wss[c]);
                } else {
                    assert(batches@[c]@ == before_b);
                }
            }
        }
        t = t + 1;
    }
    let merged = merge_candidate_batches(&batches, max_candidates);
    proof {
        let bv = batches@.map_values(|b: Vec<Vec<String>>| candidates_view(b@));
        lemma_merge_batches(bv, max_candidates as int, 5);
        let mv = candidates_view(merged@);
        if max_candidates == 0 {
            assert forall|c: int| 0 <= c < 5 implies (#[trigger] bv[c]).len() == 0 by {
                assert(batches@[c]@.len() <= 0);
            }
        }
        assert forall|i: int| 0 <= i < merged@.len() implies exists|c: int|
            0 <= c < 5 && is_candidate(
                rotated(rows@, seeds_of(rows@.len() as int)[c]),
                k as int,
                max_per_subject as int,
                earliest_start,
                starts@,
                meetings_by_section@,
                *credit_ok,
                prereqs@,
                #[trigger] candidates_view(merged@)[i],
            ) by {
            assert(in_some_batch(bv, 5, mv[i]));
            let c = choose|c: int| 0 <= c < 5 && #[trigger] bv[c].contains(mv[i]);
            let q = choose|q: int| 0 <= q < bv[c].len() && bv[c][q] == mv[i];
            assert(candidates_view(batches@[c]@)[q] == bv[c][q]);
        }
        if merged@.len() < max_candidates {
            lemma_merge_batches_complete(bv, max_candidates as int, 5);
            let mk = candidate_keys(mv);
            assert forall|c: int, s: Seq<SectionRow>, idx: Seq<int>|
                0 <= c < 5 && #[trigger] wanted_pick(
                    rotated(rows@, seeds_of(rows@.len() as int)[c]),
                    k as int,
                    max_per_subject as int,
                    earliest_start,
                    starts@,
                    meetings_by_section@,
                    *credit_ok,
                    prereqs@,
                    s,
                    idx,
                ) implies mk.contains(schedule_key(sections_of(s))) by {
                let bk = candidate_keys(bv[c]);
                assert(bv[c] == candidates_view(batches@[c]@));
                assert forall|i: int| 0 <= i < bk.len() implies mk.contains(#[trigger] bk[i]) by {
                    assert(bk[i] == schedule_key(bv[c][i]));
                }
                if batches@[c]@.len() >= max_candidates {
                    lemma_distinct_keys_fit(bk, mk);
                    assert(false);
                }
                let q = choose|q: int| 0 <= q < bk.len() && bk[q] == schedule_key(sections_of(s));
                assert(mk.contains(bk[q]));
            }
        }
        assert forall|c: int| 0 <= c < 5 implies seed_batch(rotated(rows@, seeds_of(rows@.len() as int)[c]), k as int, max_per_subject as int, earliest_start, starts@, meetings_by_section@, *credit_ok, prereqs@, #[trigger] bv[c], max_candidates as int) by {
            assert(bv[c] == candidates_view(batches@[c]@));
            assert(search_order(rotated(rows@, seeds_of(rows@.len() as int)[c]), k as int, max_per_subject as int, earliest_start, starts@, meetings_by_section@, *credit_ok, prereqs@, bv[c], wss[c]));
        }
        assert(bv.len() == 5);
        assert(candidates_view(merged@) == merge_batches_spec(bv, max_candidates as int, 5));
        assert(bv.len() == 5 && candidates_view(merged@) == merge_batches_spec(bv, max_candidates as int, 5)
            && forall|c: int| 0 <= c < 5 ==> seed_batch(rotated(rows@, seeds_of(rows@.len() as int)[c]), k as int, max_per_subject as int, earliest_start, starts@, meetings_by_section@, *credit_ok, prereqs@, #[trigger] bv[c], max_candidates as int));
    }
    merged
}

/// The section ids of `rows`.
pub open spec fn ids_of(rows: Seq<SectionRow>) -> Seq<Seq<char>> {
    rows.map_values(|r: SectionRow| r.spec_key())
}

/// The rows kept from the first `n`: a row whose section id was already kept is dropped, and
/// once `max_rows` rows are kept (when `max_rows > 0`) the rest are dropped.
pub open spec fn spec_dedup_rows(rows: Seq<SectionRow>, max_rows: int, n: int) -> Seq<SectionRow>
    decreases n,
{
    if n <= 0 {
        seq![]
    } else {
        let prev = spec_dedup_rows(rows, max_rows, n - 1);
        if (max_rows > 0 && prev.len() >= max_rows) || ids_of(prev).contains(rows[n - 1].spec_key()) {
            prev
        } else {
            prev.push(rows[n - 1])
        }
    }
}

/// The kept rows have distinct section ids; with no row limit, every section id of the input
/// is kept.
pub proof fn lemma_dedup_rows(rows: Seq<SectionRow>, max_rows: int, n: int)
    requires
        0 <= n <= rows.len(),
    ensures
        ids_of(spec_dedup_rows(rows, max_rows, n)).no_duplicates(),
        max_rows <= 0 ==> forall|i: int|
            0 <= i < n ==> ids_of(spec_dedup_rows(rows, max_rows, n)).contains(#[trigger] rows[i].spec_key()),
    decreases n,
{
    if n > 0 {
        lemma_dedup_rows(rows, max_rows, n - 1);
        let prev = spec_dedup_rows(rows, max_rows, n - 1);
        let cur = spec_dedup_rows(rows, max_rows, n);
        if cur != prev {
            assert(ids_of(cur) =~= ids_of(prev).push(rows[n - 1].spec_key()));
            assert forall|a: int, b: int| 0 <= a < b < ids_of(cur).len() implies ids_of(cur)[a] != ids_of(cur)[b] by {
                if b == ids_of(prev).len() {
                    assert(ids_of(prev).contains(ids_of(prev)[a]));
                }
            }
        }
        if max_rows <= 0 {
            assert forall|i: int| 0 <= i < n implies ids_of(cur).contains(#[trigger] rows[i].spec_key()) by {
                if i < n - 1 {
                    let q = choose|q: int| 0 <= q < ids_of(prev).len() && ids_of(prev)[q] == rows[i].spec_key();
                    if cur != prev {
                        assert(ids_of(cur)[q] == rows[i].spec_key());
                    }
                } else if cur != prev {
                    assert(ids_of(cur)[ids_of(prev).len() as int] == rows[i].spec_key());
                }
            }
        }
    }
}

/// Whether some row of `kept` has section id `id`.
fn kept_has_id(kept: &Vec<SectionRow>, id: &String) -> (r: bool)
    ensures
        r == ids_of(kept@).contains(id@),
{
    let mut j: usize = 0;
    while j < kept.len()
        invariant
            j <= kept@.len(),
            forall|q: int| 0 <= q < j ==> (#[trigger] kept@[q]).spec_key() != id@,
        decreases kept@.len() - j,
    {
        let k = kept[j].section_id();
        if k == *id {
            proof {
                assert(ids_of(kept@)[j as int] == id@);
            }
            return true;
        }
        j = j + 1;
    }
    proof {
        if ids_of(kept@).contains(id@) {
            let q = choose|q: int| 0 <= q < ids_of(kept@).len() && ids_of(kept@)[q] == id@;
            assert(kept@[q].spec_key() == id@);
        }
    }
    false
}

/// Section rows with repeated section ids dropped (the first stays), at most `max_rows` of them
/// when `max_rows > 0`.
pub fn dedup_section_rows(rows: &Vec<SectionRow>, max_rows: usize) -> (r: Vec<SectionRow>)
    ensures
        r@ == spec_dedup_rows(rows@, max_rows as int, rows@.len() as int),
        ids_of(r@).no_duplicates(),
        max_rows == 0 ==> forall|i: int| 0 <= i < rows@.len() ==> ids_of(r@).contains(#[trigger] rows@[i].spec_key()),
{
    let mut kept: Vec<SectionRow> = Vec::new();
    let mut n: usize = 0;
    while n < rows.len()
        invariant
            n <= rows@.len(),
            kept@ == spec_dedup_rows(rows@, max_rows as int, n as int),
        decreases rows@.len() - n,
    {
        let stop = max_rows > 0 && kept.len() >= max_rows;
        if !stop {
            let id = rows[n].section_id();
            if !kept_has_id(&kept, &id) {
                kept.push(rows[n].copy());
            }
        }
        n = n + 1;
    }
    proof {
        lemma_dedup_rows(rows@, max_rows as int, rows@.len() as int);
    }
    kept
}

/// Subject codes as filters take them: trimmed, uppercased, blanks dropped.
pub open spec fn spec_subject_list(list: Seq<Seq<char>>, n: int) -> Seq<Seq<char>>
    decreases n,
{
    if n <= 0 {
        seq![]
    } else {
        let prev = spec_subject_list(list, n - 1);
        let c = spec_to_uppercase(trim(list[n - 1]));
        if c.len() == 0 {
            prev
        } else {
            prev.push(c)
        }
    }
}

/// The subject filter list: each entry trimmed and uppercased, blank entries dropped.
pub fn normalize_subject_list(list: &Vec<String>) -> (r: Vec<String>)
    ensures
        strings_view(r@) == spec_subject_list(strings_view(list@), list@.len() as int),
{
    let ghost lv = strings_view(list@);
    let mut out: Vec<String> = Vec::new();
    let mut i: usize = 0;
    while i < list.len()
        invariant
            i <= list@.len(),
            lv == strings_view(list@),
            strings_view(out@) == spec_subject_list(lv, i as int),
        decreases list@.len() - i,
    {
        let t = trim_string(list[i].as_str());
        let c = to_uppercase(t.as_str());
        proof {
            assert(lv[i as int] == list@[i as int]@);
        }
        if !c.as_str().is_empty() {
            let ghost before = out@;
            out.push(c);
            proof {
                assert(strings_view(out@) =~= strings_view(before).push(c@));
            }
        }
        i = i + 1;
    }
    out
}

/// A row passes the subject filters: its uppercased subject is in the allow list (when that
/// list is not empty) and not in the block list.
pub open spec fn subject_allowed(row: SectionRow, whitelist: Seq<Seq<char>>, blacklist: Seq<Seq<char>>) -> bool {
    let subj = spec_to_uppercase(row.subject_code@);
    (whitelist.len() == 0 || whitelist.contains(subj)) && !blacklist.contains(subj)
}

/// The rows among the first `n` that pass the subject filters, in order.
pub open spec fn spec_filter_rows(
    rows: Seq<SectionRow>,
    whitelist: Seq<Seq<char>>,
    blacklist: Seq<Seq<char>>,
    n: int,
) -> Seq<SectionRow>
    decreases n,
{
    if n <= 0 {
        seq![]
    } else {
        let prev = spec_filter_rows(rows, whitelist, blacklist, n - 1);
        if subject_allowed(rows[n - 1], whitelist, blacklist) {
            prev.push(rows[n - 1])
        } else {
            prev
        }
    }
}

/// Whether `x` is among `list`.
fn list_contains(list: &Vec<String>, x: &String) -> (r: bool)
    ensures
        r == strings_view(list@).contains(x@),
{
    let mut j: usize = 0;
    while j < list.len()
        invariant
            j <= list@.len(),
            forall|q: int| 0 <= q < j ==> (#[trigger] list@[q])@ != x@,
        decreases list@.len() - j,
    {
        if list[j] == *x {
            proof {
                assert(strings_view(list@)[j as int] == x@);
            }
            return true;
        }
        j = j + 1;
    }
    proof {
        if strings_view(list@).contains(x@) {
            let q = choose|q: int| 0 <= q < strings_view(list@).len() && strings_view(list@)[q] == x@;
            assert(list@[q]@ == x@);
        }
    }
    false
}

/// The rows whose uppercased subject is in `whitelist` (when it is not empty) and not in
/// `blacklist`, in order.
pub fn filter_rows_by_subjects(rows: &Vec<SectionRow>, whitelist: &Vec<String>, blacklist: &Vec<String>) -> (r: Vec<SectionRow>)
    ensures
        r@ == spec_filter_rows(rows@, strings_view(whitelist@), strings_view(blacklist@), rows@.len() as int),
{
    let mut out: Vec<SectionRow> = Vec::new();
    let mut n: usize = 0;
    while n < rows.len()
        invariant
            n <= rows@.len(),
            out@ == spec_filter_rows(rows@, strings_view(whitelist@), strings_view(blacklist@), n as int),
        decreases rows@.len() - n,
    {
        let subj = to_uppercase(rows[n].subject_code.as_str());
        let allowed = (whitelist.len() == 0 || list_contains(whitelist, &subj)) && !list_contains(blacklist, &subj);
        if allowed {
            out.push(rows[n].copy());
        }
        n = n + 1;
    }
    out
}

/// The distinct subject codes of the first `n` rows, in order of first appearance.
pub open spec fn subjects_in_order(rows: Seq<SectionRow>, n: int) -> Seq<Seq<char>>
    decreases n,
{
    if n <= 0 {
        seq![]
    } else {
        let p = subjects_in_order(rows, n - 1);
        let s = rows[n - 1].subject_code@;
        if p.contains(s) {
            p
        } else {
            p.push(s)
        }
    }
}

/// The rows among the first `n` of subject `subj`, in order.
pub open spec fn subject_group(rows: Seq<SectionRow>, subj: Seq<char>, n: int) -> Seq<SectionRow>
    decreases n,
{
    if n <= 0 {
        seq![]
    } else {
        let p = subject_group(rows, subj, n - 1);
        if rows[n - 1].subject_code@ == subj {
            p.push(rows[n - 1])
        } else {
            p
        }
    }
}

/// Round `idx` of the round robin over the first `t` subjects of `order`: the `idx`-th row of
/// each of those subjects that has one.
pub open spec fn round_of(rows: Seq<SectionRow>, order: Seq<Seq<char>>, idx: int, t: int) -> Seq<SectionRow>
    decreases t,
{
    if t <= 0 {
        seq![]
    } else {
        let p = round_of(rows, order, idx, t - 1);
        let g = subject_group(rows, order[t - 1], rows.len() as int);
        if 0 <= idx < g.len() {
            p.push(g[idx])
        } else {
            p
        }
    }
}

/// Rounds `0 .. r` of the round robin, one after the other.
pub open spec fn rounds_of(rows: Seq<SectionRow>, order: Seq<Seq<char>>, r: int) -> Seq<SectionRow>
    decreases r,
{
    if r <= 0 {
        seq![]
    } else {
        rounds_of(rows, order, r - 1) + round_of(rows, order, r - 1, order.len() as int)
    }
}

/// The rows rebalanced across subjects: subjects in lexicographic order, taking each subject's
/// first row, then each one's second, and so on, up to `max_rows` rows.
pub open spec fn spec_rebalance(rows: Seq<SectionRow>, max_rows: int) -> Seq<SectionRow> {
    let order = sort_strings(subjects_in_order(rows, rows.len() as int));
    let all = rounds_of(rows, order, rows.len() as int);
    if all.len() <= max_rows {
        all
    } else {
        all.take(max_rows)
    }
}

proof fn lemma_group_len(rows: Seq<SectionRow>, subj: Seq<char>, n: int)
    requires
        0 <= n,
    ensures
        subject_group(rows, subj, n).len() <= n,
    decreases n,
{
    if n > 0 {
        lemma_group_len(rows, subj, n - 1);
    }
}

proof fn lemma_round_prefix(rows: Seq<SectionRow>, order: Seq<Seq<char>>, idx: int, t: int, u: int)
    requires
        0 <= t <= u,
    ensures
        round_of(rows, order, idx, u).len() >= round_of(rows, order, idx, t).len(),
        round_of(rows, order, idx, u).take(round_of(rows, order, idx, t).len() as int) == round_of(
            rows,
            order,
            idx,
            t,
        ),
    decreases u - t,
{
    if t < u {
        lemma_round_prefix(rows, order, idx, t, u - 1);
        let a = round_of(rows, order, idx, t);
        let b = round_of(rows, order, idx, u - 1);
        let c = round_of(rows, order, idx, u);
        assert(c.take(a.len() as int) =~= b.take(a.len() as int));
    } else {
        let a = round_of(rows, order, idx, t);
        assert(a.take(a.len() as int) =~= a);
    }
}

proof fn lemma_rounds_prefix(rows: Seq<SectionRow>, order: Seq<Seq<char>>, a: int, b: int)
    requires
        0 <= a <= b,
    ensures
        rounds_of(rows, order, b).len() >= rounds_of(rows, order, a).len(),
        rounds_of(rows, order, b).take(rounds_of(rows, order, a).len() as int) == rounds_of(rows, order, a),
    decreases b - a,
{
    if a < b {
        lemma_rounds_prefix(rows, order, a, b - 1);
        let x = rounds_of(rows, order, a);
        let y = rounds_of(rows, order, b - 1);
        let z = rounds_of(rows, order, b);
        assert(z.take(x.len() as int) =~= y.take(x.len() as int));
    } else {
        let x = rounds_of(rows, order, a);
        assert(x.take(x.len() as int) =~= x);
    }
}

proof fn lemma_round_empty(rows: Seq<SectionRow>, order: Seq<Seq<char>>, idx: int, t: int)
    requires
        0 <= idx,
        0 <= t <= order.len(),
    ensures
        round_of(rows, order, idx, t).len() == 0 <==> forall|u: int|
            0 <= u < t ==> subject_group(rows, #[trigger] order[u], rows.len() as int).len() <= idx,
    decreases t,
{
    if t > 0 {
        lemma_round_empty(rows, order, idx, t - 1);
    }
}

proof fn lemma_rounds_stop(rows: Seq<SectionRow>, order: Seq<Seq<char>>, idx: int, m: int)
    requires
        0 <= idx <= m,
        round_of(rows, order, idx, order.len() as int).len() == 0,
    ensures
        rounds_of(rows, order, m) == rounds_of(rows, order, idx),
    decreases m - idx,
{
    if m > idx {
        lemma_rounds_stop(rows, order, idx, m - 1);
        lemma_round_empty(rows, order, idx, order.len() as int);
        lemma_round_empty(rows, order, m - 1, order.len() as int);
        assert(rounds_of(rows, order, m) =~= rounds_of(rows, order, m - 1));
    }
}

proof fn lemma_subjects_in_order(rows: Seq<SectionRow>, n: int)
    requires
        0 <= n <= rows.len(),
    ensures
        subjects_in_order(rows, n).no_duplicates(),
        forall|i: int| 0 <= i < n ==> subjects_in_order(rows, n).contains(#[trigger] rows[i].subject_code@),
    decreases n,
{
    if n > 0 {
        lemma_subjects_in_order(rows, n - 1);
        let p = subjects_in_order(rows, n - 1);
        let q = subjects_in_order(rows, n);
        assert forall|i: int| 0 <= i < n implies q.contains(#[trigger] rows[i].subject_code@) by {
            if i < n - 1 && !p.contains(rows[n - 1].subject_code@) {
                let j = choose|j: int| 0 <= j < p.len() && p[j] == rows[i].subject_code@;
                assert(q[j] == p[j]);
            } else if i == n - 1 && !p.contains(rows[n - 1].subject_code@) {
                assert(q[p.len() as int] == rows[i].subject_code@);
            }
        }
    }
}

proof fn lemma_group_count(rows: Seq<SectionRow>, subj: Seq<char>, n: int, x: SectionRow)
    requires
        0 <= n <= rows.len(),
    ensures
        subject_group(rows, subj, n).to_multiset().count(x) == if x.subject_code@ == subj {
            rows.take(n).to_multiset().count(x)
        } else {
            0
        },
        forall|i: int|
            0 <= i < subject_group(rows, subj, n).len() ==> (#[trigger] subject_group(rows, subj, n)[i]).subject_code@
                == subj,
    decreases n,
{
    broadcast use vstd::seq_lib::group_to_multiset_ensures;
    broadcast use vstd::multiset::group_multiset_axioms;

    if n == 0 {
        assert(subject_group(rows, subj, 0).to_multiset() =~= vstd::multiset::Multiset::empty());
        assert(rows.take(0).to_multiset() =~= vstd::multiset::Multiset::empty());
    } else {
        lemma_group_count(rows, subj, n - 1, x);
        assert(rows.take(n) =~= rows.take(n - 1).push(rows[n - 1]));
        let p = subject_group(rows, subj, n - 1);
        let g = subject_group(rows, subj, n);
        assert forall|i: int| 0 <= i < g.len() implies (#[trigger] g[i]).subject_code@ == subj by {
            if i < p.len() {
                assert(g[i] == p[i]);
            }
        }
    }
}

/// Whether one of the first `t` subjects of `order` is `s`.
spec fn has_subject(order: Seq<Seq<char>>, t: int, s: Seq<char>) -> bool {
    exists|u: int| 0 <= u < t && order[u] == s
}

/// `1` when `g[idx]` is `x`, else `0`.
spec fn hit(g: Seq<SectionRow>, idx: int, x: SectionRow) -> nat {
    if 0 <= idx < g.len() && g[idx] == x {
        1
    } else {
        0
    }
}

proof fn lemma_round_count(rows: Seq<SectionRow>, order: Seq<Seq<char>>, idx: int, t: int, x: SectionRow)
    requires
        order.no_duplicates(),
        0 <= t <= order.len(),
        0 <= idx,
    ensures
        round_of(rows, order, idx, t).to_multiset().count(x) == if has_subject(order, t, x.subject_code@) {
            hit(subject_group(rows, x.subject_code@, rows.len() as int), idx, x)
        } else {
            0
        },
    decreases t,
{
    broadcast use vstd::seq_lib::group_to_multiset_ensures;
    broadcast use vstd::multiset::group_multiset_axioms;

    let s = x.subject_code@;
    if t == 0 {
        assert(round_of(rows, order, idx, 0).to_multiset() =~= vstd::multiset::Multiset::empty());
    } else {
        lemma_round_count(rows, order, idx, t - 1, x);
        let g = subject_group(rows, order[t - 1], rows.len() as int);
        lemma_group_count(rows, order[t - 1], rows.len() as int, x);
        if order[t - 1] == s {
            assert(has_subject(order, t, s));
            assert(!has_subject(order, t - 1, s)) by {
                if has_subject(order, t - 1, s) {
                    let u = choose|u: int| 0 <= u < t - 1 && order[u] == s;
                    assert(order[u] == order[t - 1]);
                }
            }
        } else {
            assert(has_subject(order, t, s) == has_subject(order, t - 1, s)) by {
                if has_subject(order, t, s) {
                    let u = choose|u: int| 0 <= u < t && order[u] == s;
                    assert(u < t - 1);
                }
            }
            if 0 <= idx < g.len() {
                assert(g[idx].subject_code@ == order[t - 1]);
                assert(g[idx] != x);
            }
        }
    }
}

/// How often `x` is among the first `r` rows of `g` (all of `g` when `r >= g.len()`).
spec fn prefix_count(g: Seq<SectionRow>, r: int, x: SectionRow) -> nat {
    if r >= g.len() {
        g.to_multiset().count(x)
    } else {
        g.take(r).to_multiset().count(x)
    }
}

proof fn lemma_rounds_count(rows: Seq<SectionRow>, order: Seq<Seq<char>>, r: int, x: SectionRow)
    requires
        order.no_duplicates(),
        0 <= r,
    ensures
        rounds_of(rows, order, r).to_multiset().count(x) == if order.contains(x.subject_code@) {
            prefix_count(subject_group(rows, x.subject_code@, rows.len() as int), r, x)
        } else {
            0
        },
    decreases r,
{
    broadcast use vstd::seq_lib::group_to_multiset_ensures;
    broadcast use vstd::multiset::group_multiset_axioms;

    let s = x.subject_code@;
    let g = subject_group(rows, s, rows.len() as int);
    if r == 0 {
        assert(rounds_of(rows, order, 0).to_multiset() =~= vstd::multiset::Multiset::empty());
        assert(g.take(0).to_multiset() =~= vstd::multiset::Multiset::empty());
        if g.len() == 0 {
            assert(g.to_multiset() =~= vstd::multiset::Multiset::empty());
        }
    } else {
        lemma_rounds_count(rows, order, r - 1, x);
        lemma_round_count(rows, order, r - 1, order.len() as int, x);
        vstd::seq_lib::lemma_multiset_commutative(
            rounds_of(rows, order, r - 1),
            round_of(rows, order, r - 1, order.len() as int),
        );
        assert(has_subject(order, order.len() as int, s) == order.contains(s));
        if r - 1 < g.len() {
            assert(g.take(r) =~= g.take(r - 1).push(g[r - 1]));
            if r == g.len() {
                assert(g.take(r) =~= g);
            }
        }
    }
}

/// With room for every row, rebalancing keeps each row exactly as often as the input has it
/// (it only reorders); in any case it keeps `min(max_rows, rows.len())` rows, each one an input
/// row, none more often than the input has it.
pub proof fn lemma_rebalance_rows(rows: Seq<SectionRow>, max_rows: int)
    requires
        0 <= max_rows,
    ensures
        spec_rebalance(rows, max_rows).len() == if rows.len() <= max_rows {
            rows.len() as int
        } else {
            max_rows
        },
        rows.len() <= max_rows ==> spec_rebalance(rows, max_rows).to_multiset() == rows.to_multiset(),
        forall|x: SectionRow|
            #[trigger] spec_rebalance(rows, max_rows).to_multiset().count(x) <= rows.to_multiset().count(x),
{
    broadcast use vstd::seq_lib::group_to_multiset_ensures;
    broadcast use vstd::multiset::group_multiset_axioms;

    let n = rows.len() as int;
    let subj = subjects_in_order(rows, n);
    let order = sort_strings(subj);
    lemma_subjects_in_order(rows, n);
    lemma_sort_strings(subj);
    subj.lemma_multiset_has_no_duplicates();
    order.lemma_multiset_has_no_duplicates_conv();
    let all = rounds_of(rows, order, n);
    assert(rows.take(n) =~= rows);
    assert forall|x: SectionRow| all.to_multiset().count(x) == rows.to_multiset().count(x) by {
        let s = x.subject_code@;
        lemma_rounds_count(rows, order, n, x);
        lemma_group_count(rows, s, n, x);
        lemma_group_len(rows, s, n);
        assert(order.contains(s) == subj.contains(s)) by {
            assert(order.to_multiset().count(s) == subj.to_multiset().count(s));
        }
        if !subj.contains(s) && rows.contains(x) {
            let i = choose|i: int| 0 <= i < n && rows[i] == x;
            assert(subj.contains(rows[i].subject_code@));
        }
    }
    assert(all.to_multiset() =~= rows.to_multiset());
    assert(all.len() == all.to_multiset().len() && rows.len() == rows.to_multiset().len());
    if n > max_rows {
        assert(all =~= all.take(max_rows) + all.skip(max_rows));
        vstd::seq_lib::lemma_multiset_commutative(all.take(max_rows), all.skip(max_rows));
    }
}

/// Rows rebalanced across subjects: subjects in lexicographic order; the first row of each
/// subject, then the second of each, and so on, until `max_rows` rows are taken or none remain.
pub fn rebalance_rows_by_subject(rows: &Vec<SectionRow>, max_rows: usize) -> (r: Vec<SectionRow>)
    ensures
        r@ == spec_rebalance(rows@, max_rows as int),
{
    let ghost rv = rows@;
    let ghost nn = rows@.len() as int;
    let rows_len = rows.len();
    let mut groups: StrMap<Vec<SectionRow>> = StrMap { keys: Vec::new(), vals: Vec::new() };
    let mut n: usize = 0;
    proof {
        assert(strings_view(groups.keys@) =~= seq![]);
    }
    while n < rows.len()
        invariant
            n <= rows@.len(),
            rv == rows@,
            groups.wf(),
            strings_view(groups.keys@) == subjects_in_order(rv, n as int),
            forall|u: int| 0 <= u < groups.keys@.len() ==> (#[trigger] groups.vals@[u])@ == subject_group(
                rv,
                groups.keys@[u]@,
                n as int,
            ),
            forall|x: Seq<char>|
                !subjects_in_order(rv, n as int).contains(x) ==> #[trigger] subject_group(rv, x, n as int).len() == 0,
        decreases rows@.len() - n,
    {
        let subj = &rows[n].subject_code;
        let ghost sv = subj@;
        let ghost before_keys = groups.keys@;
        let ghost before_vals = groups.vals@;
        match groups.find(subj) {
            Some(i) => {
                groups.push_at(i, rows[n].copy());
                proof {
                    assert forall|u: int| 0 <= u < groups.keys@.len() implies (#[trigger] groups.vals@[u])@
                        == subject_group(rv, groups.keys@[u]@, n + 1) by {
                        if u != i {
                            assert(groups.vals@[u] == before_vals[u]);
                            assert(groups.keys@[u]@ != sv) by {
                                if u < i {
                                    assert(groups.keys@[u]@ != groups.keys@[i as int]@);
                                } else {
                                    assert(groups.keys@[i as int]@ != groups.keys@[u]@);
                                }
                            }
                        }
                    }
                    assert(strings_view(groups.keys@)[i as int] == sv);
                    assert(subjects_in_order(rv, n as int).contains(sv));
                    assert(subjects_in_order(rv, n + 1) == subjects_in_order(rv, n as int));
                    assert forall|x: Seq<char>|
                        !subjects_in_order(rv, n + 1).contains(x) implies #[trigger] subject_group(rv, x, n + 1).len()
                        == 0 by {
                        assert(x != sv);
                        assert(subject_group(rv, x, n + 1) == subject_group(rv, x, n as int));
                    }
                }
            },
            None => {
                let mut v: Vec<SectionRow> = Vec::new();
                v.push(rows[n].copy());
                groups.push_new(subj.clone(), v);
                proof {
                    assert(!subjects_in_order(rv, n as int).contains(sv)) by {
                        if subjects_in_order(rv, n as int).contains(sv) {
                            let u = choose|u: int| 0 <= u < before_keys.len() && strings_view(before_keys)[u] == sv;
                            assert(before_keys[u]@ == sv);
                        }
                    }
                    assert(strings_view(groups.keys@) =~= strings_view(before_keys).push(sv));
                    assert forall|u: int| 0 <= u < groups.keys@.len() implies (#[trigger] groups.vals@[u])@
                        == subject_group(rv, groups.keys@[u]@, n + 1) by {
                        if u < before_keys.len() {
                            assert(groups.vals@[u] == before_vals[u]);
                            assert(groups.keys@[u] == before_keys[u]);
                            assert(strings_view(before_keys)[u] == before_keys[u]@);
                            assert(before_keys[u]@ != sv);
                        } else {
                            assert(subject_group(rv, sv, n as int).len() == 0);
                            assert(subject_group(rv, sv, n + 1) =~= seq![rv[n as int]]);
                        }
                    }
                    assert forall|x: Seq<char>|
                        !subjects_in_order(rv, n + 1).contains(x) implies #[trigger] subject_group(rv, x, n + 1).len()
                        == 0 by {
                        if x == sv {
                            assert(subjects_in_order(rv, n + 1)[subjects_in_order(rv, n as int).len() as int] == sv);
                        } else {
                            assert(subject_group(rv, x, n + 1) == subject_group(rv, x, n as int));
                            if subjects_in_order(rv, n as int).contains(x) {
                                let q = choose|q: int| 0 <= q < subjects_in_order(rv, n as int).len()
                                    && subjects_in_order(rv, n as int)[q] == x;
                                assert(subjects_in_order(rv, n + 1)[q] == x);
                            }
                        }
                    }
                }
            },
        }
        n = n + 1;
    }
    let order = sorted_strings(&groups.keys);
    let ghost ov = sort_strings(subjects_in_order(rv, nn));
    let mut out: Vec<SectionRow> = Vec::new();
    let mut idx: usize = 0;
    let mut finished = false;
    proof {
        assert(rounds_of(rv, ov, nn).take(0) =~= out@);
    }
    while !finished && out.len() < max_rows
        invariant
            rv == rows@,
            nn == rv.len(),
            groups.wf(),
            strings_view(groups.keys@) == subjects_in_order(rv, nn),
            forall|u: int| 0 <= u < groups.keys@.len() ==> (#[trigger] groups.vals@[u])@ == subject_group(rv, groups.keys@[u]@, nn),
            forall|x: Seq<char>| !subjects_in_order(rv, nn).contains(x) ==> #[trigger] subject_group(rv, x, nn).len() == 0,
            strings_view(order@) == ov,
            nn == rows_len,
            idx <= nn,
            !finished && out@.len() < max_rows ==> out@ == rounds_of(rv, ov, idx as int),
            finished ==> out@ == rounds_of(rv, ov, nn),
            finished ==> out@.len() <= max_rows,
            !finished && out@.len() >= max_rows ==> out@ == rounds_of(rv, ov, nn).take(max_rows as int),
            !finished && out@.len() >= max_rows ==> rounds_of(rv, ov, nn).len() >= max_rows,
        decreases nn + 1 - idx, (if finished {
            0int
        } else {
            1int
        }), (if out@.len() < max_rows {
            max_rows - out@.len()
        } else {
            0int
        }),
    {
        let ghost base = out@;
        let mut progressed = false;
        let mut u: usize = 0;
        while u < order.len() && out.len() < max_rows
            invariant
                rv == rows@,
                nn == rv.len(),
                groups.wf(),
                strings_view(groups.keys@) == subjects_in_order(rv, nn),
                forall|q: int| 0 <= q < groups.keys@.len() ==> (#[trigger] groups.vals@[q])@ == subject_group(rv, groups.keys@[q]@, nn),
                forall|x: Seq<char>| !subjects_in_order(rv, nn).contains(x) ==> #[trigger] subject_group(rv, x, nn).len() == 0,
                strings_view(order@) == ov,
                u <= order@.len(),
                out@ == base + round_of(rv, ov, idx as int, u as int),
                progressed == (round_of(rv, ov, idx as int, u as int).len() > 0),
                out@.len() <= max_rows,
            decreases order@.len() - u,
        {
            let ghost before = out@;
            proof {
                assert(ov[u as int] == order@[u as int]@);
            }
            match groups.find(&order[u]) {
                Some(i) => {
                    let entries = &groups.vals[i];
                    proof {
                        assert(entries@ == subject_group(rv, ov[u as int], nn));
                    }
                    if idx < entries.len() {
                        out.push(entries[idx].copy());
                        progressed = true;
                        proof {
                            assert(out@ =~= base + round_of(rv, ov, idx as int, u + 1));
                        }
                    }
                },
                None => {
                    proof {
                        assert(!subjects_in_order(rv, nn).contains(ov[u as int])) by {
                            if subjects_in_order(rv, nn).contains(ov[u as int]) {
                                let q = choose|q: int|
                                    0 <= q < strings_view(groups.keys@).len() && strings_view(groups.keys@)[q]
                                        == ov[u as int];
                                assert(groups.keys@[q]@ == ov[u as int]);
                                assert(groups@.contains_key(ov[u as int]));
                            }
                        }
                    }
                },
            }
            u = u + 1;
        }
        if out.len() >= max_rows {
            proof {
                let part = round_of(rv, ov, idx as int, u as int);
                assert(part.len() > 0);
                lemma_round_empty(rv, ov, idx as int, u as int);
                let g = choose|q: int| 0 <= q < u && subject_group(rv, #[trigger] ov[q], nn).len() > idx;
                lemma_group_len(rv, ov[g], nn);
                lemma_round_prefix(rv, ov, idx as int, u as int, ov.len() as int);
                lemma_rounds_prefix(rv, ov, idx + 1, nn);
                let full = rounds_of(rv, ov, nn);
                let next = rounds_of(rv, ov, idx + 1);
                assert(next == base + round_of(rv, ov, idx as int, ov.len() as int));
                assert(out@ =~= full.take(out@.len() as int)) by {
                    assert forall|q: int| 0 <= q < out@.len() implies out@[q] == full[q] by {
                        assert(full.take(next.len() as int)[q] == next[q]);
                        if q >= base.len() {
                            assert(round_of(rv, ov, idx as int, ov.len() as int).take(part.len() as int)[q - base.len()]
                                == part[q - base.len()]);
                        }
                    }
                }
                assert(out@.len() == max_rows);
                assert(full.len() >= max_rows);
            }
        } else if !progressed {
            proof {
                assert(u == order@.len());
                lemma_rounds_stop(rv, ov, idx as int, nn);
                assert(out@ =~= rounds_of(rv, ov, idx as int));
            }
            finished = true;
        } else {
            proof {
                assert(u == order@.len());
                let part = round_of(rv, ov, idx as int, u as int);
                lemma_round_empty(rv, ov, idx as int, u as int);
                let g = choose|q: int| 0 <= q < u && subject_group(rv, #[trigger] ov[q], nn).len() > idx;
                lemma_group_len(rv, ov[g], nn);
                assert(out@ == rounds_of(rv, ov, idx + 1));
            }
            idx = idx + 1;
        }
    }
    proof {
        if !finished {
            let full = rounds_of(rv, ov, nn);
            if full.len() <= max_rows {
                assert(full.take(max_rows as int) =~= full);
            }
        } else {
            assert(out@.len() < max_rows || out@.len() <= max_rows);
        }
    }
    out
}


proof fn lemma_row_block_in_table(rows: Seq<MeetingRecord>, n: int, x: int)
    requires
        0 <= x < n <= rows.len(),
        row_block(rows[x]) is Some,
    ensures
        spec_section_blocks(rows, n).contains_key(rows[x].spec_key()),
        spec_section_blocks(rows, n)[rows[x].spec_key()].contains(row_block(rows[x])->0),
    decreases n,
{
    let k = rows[x].spec_key();
    let b = row_block(rows[x])->0;
    if x == n - 1 {
        let m = spec_section_blocks(rows, n - 1);
        if m.contains_key(k) {
            assert(m[k].push(b)[m[k].len() as int] == b);
        } else {
            assert(seq![b][0] == b);
        }
    } else {
        lemma_row_block_in_table(rows, n - 1, x);
        let m = spec_section_blocks(rows, n - 1);
        let q = choose|q: int| 0 <= q < m[k].len() && m[k][q] == b;
        match row_block(rows[n - 1]) {
            None => {},
            Some(c) => {
                if rows[n - 1].spec_key() == k {
                    assert(m[k].push(c)[q] == b);
                }
            },
        }
    }
}

proof fn lemma_row_minutes_in_table(
    meetings: Seq<MeetingRecord>,
    table: Map<Seq<char>, Vec<MeetingBlock>>,
    x: int,
    d: Seq<char>,
    st: i32,
    en: i32,
    m: int,
)
    requires
        blocks_table_view(table) == spec_section_blocks(meetings, meetings.len() as int),
        0 <= x < meetings.len(),
        row_block(meetings[x]) == Some((d, st, en)),
        block_minutes(st as int, en as int).contains(m),
    ensures
        blocks_minutes(section_blocks(table, meetings[x].spec_key())).contains((d, m)),
{
    let key = meetings[x].spec_key();
    lemma_row_block_in_table(meetings, meetings.len() as int, x);
    let t = section_blocks(table, key);
    assert(blocks_table_view(table).contains_key(key));
    let v = t.map_values(|y: MeetingBlock| block_view(y));
    assert(blocks_table_view(table)[key] == v);
    assert(v.contains((d, st, en)));
    let q = choose|q: int| 0 <= q < v.len() && #[trigger] v[q] == (d, st, en);
    assert(block_view(t[q]) == (d, st, en));
}

proof fn lemma_eligible_row_block(meetings: Seq<MeetingRecord>, selected: Seq<String>, a: int)
    requires
        meetings.len() <= usize::MAX,
        0 <= a < eligible_rows(meetings, selected, meetings.len() as int).len(),
        forall|i: int|
            0 <= i < meetings.len() ==> (#[trigger] meetings[i]).day_code@.len() > 0 && trim(meetings[i].day_code@)
                == meetings[i].day_code@,
    ensures
        ({
            let f = eligible_rows(meetings, selected, meetings.len() as int);
            let r = meetings[f[a].0 as int];
            &&& 0 <= f[a].0 < meetings.len()
            &&& is_selected(selected, r.spec_key())
            &&& row_block(r) == Some((r.day_code@, f[a].1, f[a].2))
        }),
{
    let f = eligible_rows(meetings, selected, meetings.len() as int);
    lemma_eligible_rows(meetings, selected, meetings.len() as int);
    let r = meetings[f[a].0 as int];
    assert(meeting_span(r) == Some((f[a].1, f[a].2)));
    reveal(meeting_span);
}

proof fn lemma_shared_minute_refused(
    max_per_subject: int,
    earliest: i32,
    starts: Map<Seq<char>, i32>,
    table: Map<Seq<char>, Vec<MeetingBlock>>,
    stack: Seq<SectionRow>,
    i: int,
    j: int,
    p: (Seq<char>, int),
)
    requires
        admissible(max_per_subject, earliest, starts, table, stack),
        0 <= i < stack.len(),
        0 <= j < stack.len(),
        i != j,
    ensures
        !(blocks_minutes(section_blocks(table, stack[i].spec_key())).contains(p) && blocks_minutes(
            section_blocks(table, stack[j].spec_key()),
        ).contains(p)),
{
    if i < j {
        lemma_admissible_no_shared_minute(max_per_subject, earliest, starts, table, stack, i, j);
    } else {
        lemma_admissible_no_shared_minute(max_per_subject, earliest, starts, table, stack, j, i);
    }
}

/// The search's minute maps already rule out what the final conflict check looks for: the
/// sections of an admissible pick, with the meeting table built from the same meeting rows, have
/// no conflict under `detect_conflicts`, provided every day code is non-blank and has no
/// surrounding white space (the table keys days trimmed, the conflict check compares them as
/// they are).
pub proof fn lemma_admissible_picks_have_no_conflicts(
    meetings: Seq<MeetingRecord>,
    table: Map<Seq<char>, Vec<MeetingBlock>>,
    max_per_subject: int,
    earliest: i32,
    starts: Map<Seq<char>, i32>,
    stack: Seq<SectionRow>,
    selected: Seq<String>,
)
    requires
        meetings.len() <= usize::MAX,
        blocks_table_view(table) == spec_section_blocks(meetings, meetings.len() as int),
        admissible(max_per_subject, earliest, starts, table, stack),
        strings_view(selected) == sections_of(stack),
        forall|i: int|
            0 <= i < meetings.len() ==> (#[trigger] meetings[i]).day_code@.len() > 0 && trim(meetings[i].day_code@)
                == meetings[i].day_code@,
    ensures
        spec_conflicts(meetings, selected).len() == 0,
{
    let n = meetings.len() as int;
    let f = eligible_rows(meetings, selected, n);
    lemma_conflicts_are_exactly_clashes(meetings, selected);
    let ci = conflict_indices(meetings, selected);
    if ci.len() > 0 {
        let p = ci[0];
        assert(ci.contains(p));
        let a = p.0;
        let b = p.1;
        assert(clash(meetings, f, a, b));
        let ra = meetings[f[a].0 as int];
        let rb = meetings[f[b].0 as int];
        lemma_eligible_row_block(meetings, selected, a);
        lemma_eligible_row_block(meetings, selected, b);
        lemma_clash_is_shared_minute(meetings, selected, a, b);
        let mm = choose|mm: int|
            block_minutes(f[a].1 as int, f[a].2 as int).contains(mm) && block_minutes(
                f[b].1 as int,
                f[b].2 as int,
            ).contains(mm);
        let day = ra.day_code@;
        assert(day == day_at(meetings, f, a) && rb.day_code@ == day_at(meetings, f, b));
        let i = choose|i: int| 0 <= i < selected.len() && (#[trigger] selected[i])@ == ra.spec_key();
        let j = choose|j: int| 0 <= j < selected.len() && (#[trigger] selected[j])@ == rb.spec_key();
        assert(strings_view(selected).len() == selected.len() && sections_of(stack).len() == stack.len());
        assert(strings_view(selected)[i] == selected[i]@ && strings_view(selected)[j] == selected[j]@);
        assert(sections_of(stack)[i] == stack[i].spec_key() && sections_of(stack)[j] == stack[j].spec_key());
        lemma_row_minutes_in_table(meetings, table, f[a].0 as int, day, f[a].1, f[a].2, mm);
        lemma_row_minutes_in_table(meetings, table, f[b].0 as int, day, f[b].1, f[b].2, mm);
        assert(i != j);
        lemma_shared_minute_refused(max_per_subject, earliest, starts, table, stack, i, j, (day, mm));
    }
}


/// A pick is accepted by the credit check only as a whole: the check was asked about the row
/// ids of every picked row, in pick order, and answered `true`.
pub proof fn lemma_credit_check_sees_every_row<F: Fn(&Vec<usize>) -> bool>(credit_ok: F, s: Seq<SectionRow>)
    requires
        credits_accept(credit_ok, s),
    ensures
        exists|v: Vec<usize>|
            v@.len() == s.len() && (forall|i: int| 0 <= i < s.len() ==> #[trigger] v@[i] == s[i].row_id)
                && credit_ok.ensures((&v,), true),
{
    let v = choose|v: Vec<usize>| v@ == row_ids(s) && #[trigger] credit_ok.ensures((&v,), true);
    assert(v@.len() == s.len());
    assert forall|i: int| 0 <= i < s.len() implies #[trigger] v@[i] == s[i].row_id by {
        assert(row_ids(s)[i] == s[i].row_id);
    }
}

/// A pick the search must find is one the credit check cannot refuse when asked about the row
/// ids of every picked row, in pick order.
pub proof fn lemma_required_pick_credits<F: Fn(&Vec<usize>) -> bool>(credit_ok: F, s: Seq<SectionRow>, v: Vec<usize>, b: bool)
    requires
        credit_must_accept(credit_ok, s),
        v@.len() == s.len(),
        forall|i: int| 0 <= i < s.len() ==> #[trigger] v@[i] == s[i].row_id,
        credit_ok.ensures((&v,), b),
    ensures
        b,
{
    assert(v@ =~= row_ids(s));
}

/// The start entry of a section is its earliest meeting: every row that contributes a block
/// has a start entry for its section no later than its own start, and each entry is the start
/// of some contributing row of that section.
pub proof fn lemma_section_starts_are_earliest(rows: Seq<MeetingRecord>, n: int)
    requires
        0 <= n <= rows.len(),
    ensures
        forall|i: int|
            0 <= i < n && (#[trigger] row_block(rows[i])) is Some ==> spec_section_starts(rows, n).contains_key(
                rows[i].spec_key(),
            ) && spec_section_starts(rows, n)[rows[i].spec_key()] <= (row_block(rows[i])->0).1,
        forall|k: Seq<char>|
            #[trigger] spec_section_starts(rows, n).contains_key(k) ==> exists|i: int|
                0 <= i < n && row_block(rows[i]) is Some && rows[i].spec_key() == k && (row_block(rows[i])->0).1
                    == spec_section_starts(rows, n)[k],
    decreases n,
{
    if n > 0 {
        lemma_section_starts_are_earliest(rows, n - 1);
        let m = spec_section_starts(rows, n - 1);
        let mm = spec_section_starts(rows, n);
        assert forall|k: Seq<char>| #[trigger] mm.contains_key(k) implies exists|i: int|
            0 <= i < n && row_block(rows[i]) is Some && rows[i].spec_key() == k && (row_block(rows[i])->0).1
                == mm[k] by {
            if m.contains_key(k) && mm[k] == m[k] {
                let i = choose|i: int|
                    0 <= i < n - 1 && row_block(rows[i]) is Some && rows[i].spec_key() == k && (row_block(rows[i])->0).1
                        == m[k];
            } else {
                assert(rows[n - 1].spec_key() == k && (row_block(rows[n - 1])->0).1 == mm[k]);
            }
        }
    }
}

} // verus!
