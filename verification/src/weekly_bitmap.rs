//! Per-day minute bitmaps (1440 bits per day) for fast time pruning.
//! Semantics: half-open minutes `[start_min, end_min)`; overlap iff `s1 < e2 && s2 < e1`.
use vstd::prelude::*;

verus! {

/// Minutes in one day.
pub const MINUTES_PER_DAY: i32 = 1440;

/// Number of 64-bit words that cover one day of minutes.
pub const DAY_WORDS: usize = 23;

/// Whether bit `j` of `w` is set.
pub open spec fn bit_set(w: u64, j: u64) -> bool {
    (w >> j) & 1u64 == 1u64
}

/// The minutes `m` with `0 <= m < 1440` and `start <= m < end`: the clamped half-open range.
pub open spec fn block_minutes(start: int, end: int) -> Set<int> {
    Set::new(|m: int| 0 <= m < MINUTES_PER_DAY && start <= m < end)
}

/// The minutes marked in a day's words: minute `m` lives at bit `m % 64` of word `m / 64`.
pub open spec fn day_minutes(words: Seq<u64>) -> Set<int> {
    Set::new(|m: int| 0 <= m < 64 * words.len() && bit_set(words[m / 64], (m % 64) as u64))
}

proof fn lemma_mask_bits(bi: u64, width: u64)
    by (bit_vector)
    requires
        bi < 64,
        width < 64,
        bi + width <= 64,
    ensures
        forall|j: u64|
            j < 64 ==> (#[trigger] bit_set((((1u64 << width) - 1u64) as u64) << bi, j) == (bi <= j
                && j < bi + width)),
{
}

proof fn lemma_full_mask_bits()
    by (bit_vector)
    ensures
        forall|j: u64| j < 64 ==> #[trigger] bit_set(0xffff_ffff_ffff_ffffu64, j),
        forall|j: u64| j < 64 ==> !#[trigger] bit_set(0u64, j),
{
}

proof fn lemma_and_bits(x: u64, m: u64)
    by (bit_vector)
    ensures
        forall|j: u64| j < 64 ==> #[trigger] bit_set(x & m, j) == (bit_set(x, j) && bit_set(m, j)),
        forall|j: u64| j < 64 ==> #[trigger] bit_set(x | m, j) == (bit_set(x, j) || bit_set(m, j)),
        forall|j: u64| j < 64 ==> #[trigger] bit_set(x & !m, j) == (bit_set(x, j) && !bit_set(m, j)),
{
}

proof fn lemma_zero_has_no_bits()
    by (bit_vector)
    ensures
        forall|j: u64| j < 64 ==> !#[trigger] bit_set(0u64, j),
{
}

proof fn lemma_shift_step(y: u64, k: u64)
    by (bit_vector)
    requires
        k < 64,
        (y >> k) != 0u64,
    ensures
        bit_set(y, k) || (k < 63 && (y >> ((k + 1) as u64)) != 0u64),
{
}

proof fn lemma_some_bit_from(y: u64, k: u64)
    requires
        k < 64,
        (y >> k) != 0u64,
    ensures
        exists|j: u64| k <= j < 64 && #[trigger] bit_set(y, j),
    decreases 64 - k,
{
    lemma_shift_step(y, k);
    if bit_set(y, k) {
    } else {
        lemma_some_bit_from(y, (k + 1) as u64);
    }
}

/// A word is zero exactly when none of its 64 bits is set.
proof fn lemma_zero_iff_no_bits(y: u64)
    ensures
        (y == 0u64) <==> (forall|j: u64| j < 64 ==> !#[trigger] bit_set(y, j)),
{
    lemma_zero_has_no_bits();
    if y != 0u64 {
        assert((y >> 0u64) == y) by (bit_vector);
        lemma_some_bit_from(y, 0);
    }
}

/// Clamps `[s, e)` to `[0, 1440]` and returns it when it is non-empty.
fn clamp_range(s: i32, e: i32) -> (r: Option<(usize, usize)>)
    ensures
        match r {
            Some((a, b)) => a < b <= MINUTES_PER_DAY && block_minutes(s as int, e as int) == Set::new(
                |m: int| a <= m < b,
            ),
            None => block_minutes(s as int, e as int) == Set::<int>::empty(),
        },
{
    let s0: i32 = if s < 0 {
        0
    } else if s > MINUTES_PER_DAY {
        MINUTES_PER_DAY
    } else {
        s
    };
    let e0: i32 = if e < 0 {
        0
    } else if e > MINUTES_PER_DAY {
        MINUTES_PER_DAY
    } else {
        e
    };
    if e0 > s0 {
        let r = Some((s0 as usize, e0 as usize));
        assert(block_minutes(s as int, e as int) =~= Set::new(|m: int| s0 <= m < e0));
        r
    } else {
        assert(block_minutes(s as int, e as int) =~= Set::<int>::empty());
        None
    }
}

/// The mask with bits `bi .. bi + width` set.
fn word_mask(bi: usize, width: usize) -> (r: u64)
    requires
        bi < 64,
        width <= 64 - bi,
    ensures
        forall|j: u64| j < 64 ==> (bit_set(r, j) <==> (bi <= j && j < bi + width)),
{
    if width == 0 {
        proof {
            lemma_full_mask_bits();
        }
        return 0;
    }
    if width == 64 && bi == 0 {
        proof {
            lemma_full_mask_bits();
        }
        return u64::MAX;
    }
    let b = bi as u64;
    let w = width as u64;
    proof {
        lemma_mask_bits(b, w);
        assert((1u64 << w) >= 1u64) by (bit_vector)
            requires
                w < 64u64,
        ;
    }
    ((1u64 << w) - 1) << b
}

/// Minute `m` of word `wi` at bit `j`: `m / 64 == wi` and `m % 64 == j`.
proof fn lemma_word_split(m: int, wi: int, j: int)
    requires
        0 <= j < 64,
        m == 64 * wi + j,
    ensures
        m / 64 == wi,
        m % 64 == j,
{
}

/// Whether any minute of `[s, e)` (clamped to the day) is already marked in `words`.
fn range_overlaps(words: &Vec<u64>, s: i32, e: i32) -> (r: bool)
    requires
        words@.len() == DAY_WORDS,
    ensures
        r == !day_minutes(words@).disjoint(block_minutes(s as int, e as int)),
{
    let (s0, e0) = match clamp_range(s, e) {
        Some(p) => p,
        None => {
            return false;
        },
    };
    let mut pos = s0;
    while pos < e0
        invariant
            s0 <= pos <= e0 <= MINUTES_PER_DAY,
            words@.len() == DAY_WORDS,
            block_minutes(s as int, e as int) == Set::new(|m: int| s0 <= m < e0),
            forall|m: int| s0 <= m < pos ==> !#[trigger] day_minutes(words@).contains(m),
        decreases e0 - pos,
    {
        let wi = pos / 64;
        let bi = pos % 64;
        let next = (wi + 1) * 64;
        let end_here = if e0 < next {
            e0
        } else {
            next
        };
        let width = end_here - pos;
        let mask = word_mask(bi, width);
        let x = words[wi];
        proof {
            lemma_and_bits(x, mask);
            lemma_zero_iff_no_bits(x & mask);
        }
        if x & mask != 0 {
            proof {
                let j = choose|j: u64| j < 64 && #[trigger] bit_set(x & mask, j);
                let m = 64 * wi + j;
                lemma_word_split(m, wi as int, j as int);
                assert(day_minutes(words@).contains(m));
                assert(block_minutes(s as int, e as int).contains(m));
            }
            return true;
        }
        proof {
            assert forall|m: int| s0 <= m < end_here implies !#[trigger] day_minutes(
                words@,
            ).contains(m) by {
                if m >= pos {
                    let j = m - 64 * wi;
                    lemma_word_split(m, wi as int, j);
                    assert(!bit_set(x & mask, j as u64));
                }
            }
        }
        pos = end_here;
    }
    false
}

/// Updating word `wi` only changes the minutes that live in that word.
proof fn lemma_update_word(words: Seq<u64>, wi: int, y: u64, lo: int, hi: int, set_bits: bool)
    requires
        0 <= wi < words.len(),
        64 * wi <= lo <= hi <= 64 * wi + 64,
        forall|j: u64|
            j < 64 ==> #[trigger] bit_set(y, j) == (if lo - 64 * wi <= j < hi - 64 * wi {
                set_bits
            } else {
                bit_set(words[wi], j)
            }),
    ensures
        set_bits ==> day_minutes(words.update(wi, y)) == day_minutes(words).union(
            Set::new(|m: int| lo <= m < hi),
        ),
        !set_bits ==> day_minutes(words.update(wi, y)) == day_minutes(words).difference(
            Set::new(|m: int| lo <= m < hi),
        ),
{
    let nw = words.update(wi, y);
    assert forall|m: int| #[trigger] day_minutes(nw).contains(m) == (if lo <= m < hi {
        set_bits
    } else {
        day_minutes(words).contains(m)
    }) by {
        if 0 <= m < 64 * words.len() {
            let q = m / 64;
            let j = m % 64;
            lemma_word_split(m, q, j);
            if q == wi {
                assert(bit_set(y, j as u64) == (if lo - 64 * wi <= j < hi - 64 * wi {
                    set_bits
                } else {
                    bit_set(words[wi], j as u64)
                }));
            }
        }
    }
    if set_bits {
        assert(day_minutes(nw) =~= day_minutes(words).union(Set::new(|m: int| lo <= m < hi)));
    } else {
        assert(day_minutes(nw) =~= day_minutes(words).difference(Set::new(|m: int| lo <= m < hi)));
    }
}

/// Marks every minute of `[s, e)` (clamped to the day) in `words`.
fn range_or(words: &mut Vec<u64>, s: i32, e: i32)
    requires
        old(words)@.len() == DAY_WORDS,
    ensures
        final(words)@.len() == DAY_WORDS,
        day_minutes(final(words)@) == day_minutes(old(words)@).union(
            block_minutes(s as int, e as int),
        ),
{
    let (s0, e0) = match clamp_range(s, e) {
        Some(p) => p,
        None => {
            assert(day_minutes(words@) =~= day_minutes(words@).union(
                block_minutes(s as int, e as int),
            ));
            return ;
        },
    };
    let mut pos = s0;
    while pos < e0
        invariant
            s0 <= pos <= e0 <= MINUTES_PER_DAY,
            words@.len() == DAY_WORDS,
            block_minutes(s as int, e as int) == Set::new(|m: int| s0 <= m < e0),
            day_minutes(words@) == day_minutes(old(words)@).union(Set::new(|m: int| s0 <= m < pos)),
        decreases e0 - pos,
    {
        let wi = pos / 64;
        let bi = pos % 64;
        let next = (wi + 1) * 64;
        let end_here = if e0 < next {
            e0
        } else {
            next
        };
        let width = end_here - pos;
        let mask = word_mask(bi, width);
        let x = words[wi];
        let ghost before = words@;
        proof {
            lemma_and_bits(x, mask);
            lemma_update_word(before, wi as int, x | mask, pos as int, end_here as int, true);
        }
        words[wi] = x | mask;
        proof {
            assert(words@ == before.update(wi as int, x | mask));
            assert(Set::new(|m: int| s0 <= m < pos).union(Set::new(|m: int| pos <= m < end_here))
                =~= Set::new(|m: int| s0 <= m < end_here));
        }
        pos = end_here;
    }
}

/// Unmarks every minute of `[s, e)` (clamped to the day) in `words`.
fn range_clear(words: &mut Vec<u64>, s: i32, e: i32)
    requires
        old(words)@.len() == DAY_WORDS,
    ensures
        final(words)@.len() == DAY_WORDS,
        day_minutes(final(words)@) == day_minutes(old(words)@).difference(
            block_minutes(s as int, e as int),
        ),
{
    let (s0, e0) = match clamp_range(s, e) {
        Some(p) => p,
        None => {
            assert(day_minutes(words@) =~= day_minutes(words@).difference(
                block_minutes(s as int, e as int),
            ));
            return ;
        },
    };
    let mut pos = s0;
    while pos < e0
        invariant
            s0 <= pos <= e0 <= MINUTES_PER_DAY,
            words@.len() == DAY_WORDS,
            block_minutes(s as int, e as int) == Set::new(|m: int| s0 <= m < e0),
            day_minutes(words@) == day_minutes(old(words)@).difference(
                Set::new(|m: int| s0 <= m < pos),
            ),
        decreases e0 - pos,
    {
        let wi = pos / 64;
        let bi = pos % 64;
        let next = (wi + 1) * 64;
        let end_here = if e0 < next {
            e0
        } else {
            next
        };
        let width = end_here - pos;
        let mask = word_mask(bi, width);
        let x = words[wi];
        let ghost before = words@;
        proof {
            lemma_and_bits(x, mask);
            lemma_update_word(before, wi as int, x & !mask, pos as int, end_here as int, false);
        }
        words[wi] = x & !mask;
        proof {
            assert(words@ == before.update(wi as int, x & !mask));
            assert(day_minutes(old(words)@).difference(Set::new(|m: int| s0 <= m < pos)).difference(
                Set::new(|m: int| pos <= m < end_here),
            ) =~= day_minutes(old(words)@).difference(Set::new(|m: int| s0 <= m < end_here)));
        }
        pos = end_here;
    }
}

/// One class session block for a section.
#[derive(Debug, Clone)]
pub struct MeetingBlock {
    pub day_code: String,
    pub start_min: i32,
    pub end_min: i32,
}

/// The `(day, minute)` pairs that `blocks` cover.
pub open spec fn blocks_minutes(blocks: Seq<MeetingBlock>) -> Set<(Seq<char>, int)> {
    Set::new(
        |p: (Seq<char>, int)|
            exists|i: int|
                0 <= i < blocks.len() && #[trigger] blocks[i].day_code@ == p.0 && block_minutes(
                    blocks[i].start_min as int,
                    blocks[i].end_min as int,
                ).contains(p.1),
    )
}

/// Whether adding `blocks` to an occupancy `occ` is accepted: none of their minutes is taken.
pub open spec fn accepts(occ: Set<(Seq<char>, int)>, blocks: Seq<MeetingBlock>) -> bool {
    occ.disjoint(blocks_minutes(blocks))
}

/// The occupancy after an accepted addition of `blocks`.
pub open spec fn added(occ: Set<(Seq<char>, int)>, blocks: Seq<MeetingBlock>) -> Set<
    (Seq<char>, int),
> {
    occ.union(blocks_minutes(blocks))
}

/// The occupancy after `blocks` are removed.
pub open spec fn removed(occ: Set<(Seq<char>, int)>, blocks: Seq<MeetingBlock>) -> Set<
    (Seq<char>, int),
> {
    occ.difference(blocks_minutes(blocks))
}

/// Occupied minutes of a week, one minute bitmap per day code.
#[derive(Debug, Clone)]
pub struct WeeklyOccupancy {
    days: Vec<String>,
    bits: Vec<Vec<u64>>,
}

impl View for WeeklyOccupancy {
    type V = Set<(Seq<char>, int)>;

    /// The occupied `(day, minute)` pairs.
    closed spec fn view(&self) -> Set<(Seq<char>, int)> {
        Set::new(
            |p: (Seq<char>, int)|
                exists|i: int|
                    0 <= i < self.days.len() && #[trigger] self.days[i]@ == p.0 && day_minutes(
                        self.bits[i]@,
                    ).contains(p.1),
        )
    }
}

impl WeeklyOccupancy {
    /// One bitmap per day, each of `DAY_WORDS` words, and no day code twice.
    pub closed spec fn wf(&self) -> bool {
        &&& self.days.len() == self.bits.len()
        &&& forall|i: int| 0 <= i < self.bits.len() ==> (#[trigger] self.bits[i])@.len() == DAY_WORDS
        &&& forall|i: int, j: int|
            0 <= i < j < self.days.len() ==> (#[trigger] self.days[i])@ != (#[trigger] self.days[j])@
    }

    /// An empty week.
    pub fn new() -> (r: Self)
        ensures
            r.wf(),
            r@ == Set::<(Seq<char>, int)>::empty(),
    {
        let r = WeeklyOccupancy { days: Vec::new(), bits: Vec::new() };
        assert(r@ =~= Set::<(Seq<char>, int)>::empty());
        r
    }

    /// The index of `day`, adding an empty bitmap for it when it has none.
    fn day_index(&mut self, day: &String) -> (r: usize)
        requires
            old(self).wf(),
        ensures
            final(self).wf(),
            final(self)@ == old(self)@,
            r < final(self).days.len(),
            final(self).days[r as int]@ == day@,
    {
        let mut i: usize = 0;
        while i < self.days.len()
            invariant
                i <= self.days.len(),
                self.wf(),
                *self == *old(self),
                forall|k: int| 0 <= k < i ==> (#[trigger] self.days[k])@ != day@,
            decreases self.days.len() - i,
        {
            if self.days[i] == *day {
                return i;
            }
            i = i + 1;
        }
        let ghost before = *self;
        self.days.push(day.clone());
        self.bits.push(vec![0u64; DAY_WORDS]);
        proof {
            lemma_zero_has_no_bits();
            assert(day_minutes(self.bits[i as int]@) =~= Set::<int>::empty());
            assert(self@ =~= before@) by {
                assert forall|p: (Seq<char>, int)| self@.contains(p) implies before@.contains(p) by {
                    let k = choose|k: int|
                        0 <= k < self.days.len() && #[trigger] self.days[k]@ == p.0 && day_minutes(
                            self.bits[k]@,
                        ).contains(p.1);
                    assert(k < before.days.len());
                }
                assert forall|p: (Seq<char>, int)| before@.contains(p) implies self@.contains(p) by {
                    let k = choose|k: int|
                        0 <= k < before.days.len() && #[trigger] before.days[k]@ == p.0
                            && day_minutes(before.bits[k]@).contains(p.1);
                    assert(self.days[k] == before.days[k]);
                }
            }
        }
        i
    }

    /// The index of `day` when it has a bitmap.
    fn find_day(&self, day: &String) -> (r: Option<usize>)
        requires
            self.wf(),
        ensures
            match r {
                Some(i) => i < self.days.len() && self.days[i as int]@ == day@,
                None => forall|k: int| 0 <= k < self.days.len() ==> (#[trigger] self.days[k])@ != day@,
            },
    {
        let mut i: usize = 0;
        while i < self.days.len()
            invariant
                i <= self.days.len(),
                forall|k: int| 0 <= k < i ==> (#[trigger] self.days[k])@ != day@,
            decreases self.days.len() - i,
        {
            if self.days[i] == *day {
                return Some(i);
            }
            i = i + 1;
        }
        None
    }

    /// Within day `days[idx]`, the occupancy is exactly that day's bitmap.
    proof fn lemma_day_view(&self, idx: int, m: int)
        requires
            self.wf(),
            0 <= idx < self.days.len(),
        ensures
            self@.contains((self.days[idx]@, m)) == day_minutes(self.bits[idx]@).contains(m),
    {
        if self@.contains((self.days[idx]@, m)) {
            let k = choose|k: int|
                0 <= k < self.days.len() && #[trigger] self.days[k]@ == self.days[idx]@ && day_minutes(
                    self.bits[k]@,
                ).contains(m);
            assert(k == idx);
        }
    }

    /// Replacing the bitmap of `days[idx]` by one with minutes added (or taken away)
    /// adds (or takes away) exactly those minutes of that day.
    proof fn lemma_view_update(before: Self, after: Self, idx: int, ms: Set<int>, add: bool)
        requires
            before.wf(),
            0 <= idx < before.days.len(),
            after.days@ == before.days@,
            after.bits@ == before.bits@.update(idx, after.bits[idx]),
            after.bits[idx]@.len() == DAY_WORDS,
            add ==> day_minutes(after.bits[idx]@) == day_minutes(before.bits[idx]@).union(ms),
            !add ==> day_minutes(after.bits[idx]@) == day_minutes(before.bits[idx]@).difference(ms),
        ensures
            after.wf(),
            add ==> after@ == before@.union(day_pairs(before.days[idx]@, ms)),
            !add ==> after@ == before@.difference(day_pairs(before.days[idx]@, ms)),
    {
        let d = before.days[idx]@;
        assert(after.wf()) by {
            assert forall|i: int| 0 <= i < after.bits.len() implies (#[trigger] after.bits[i])@.len()
                == DAY_WORDS by {
                if i != idx {
                    assert(after.bits[i] == before.bits[i]);
                }
            }
            assert forall|i: int, j: int| 0 <= i < j < after.days.len() implies (#[trigger] after.days[i])@
                != (#[trigger] after.days[j])@ by {
                assert(after.days[i] == before.days[i]);
                assert(after.days[j] == before.days[j]);
            }
        }
        assert forall|p: (Seq<char>, int)| #[trigger] after@.contains(p) == (if p.0 == d {
            day_minutes(after.bits[idx]@).contains(p.1)
        } else {
            before@.contains(p)
        }) by {
            if p.0 == d {
                after.lemma_day_view(idx, p.1);
            } else {
                if after@.contains(p) {
                    let k = choose|k: int|
                        0 <= k < after.days.len() && #[trigger] after.days[k]@ == p.0 && day_minutes(
                            after.bits[k]@,
                        ).contains(p.1);
                    assert(after.days[k] == before.days[k]);
                    assert(k != idx);
                    assert(after.bits[k] == before.bits[k]);
                }
                if before@.contains(p) {
                    let k = choose|k: int|
                        0 <= k < before.days.len() && #[trigger] before.days[k]@ == p.0
                            && day_minutes(before.bits[k]@).contains(p.1);
                    assert(after.days[k] == before.days[k]);
                    assert(k != idx);
                    assert(after.bits[k] == before.bits[k]);
                }
            }
        }
        assert forall|m: int| #[trigger] before@.contains((d, m)) == day_minutes(
            before.bits[idx]@,
        ).contains(m) by {
            before.lemma_day_view(idx, m);
        }
        if add {
            assert(after@ =~= before@.union(day_pairs(d, ms)));
        } else {
            assert(after@ =~= before@.difference(day_pairs(d, ms)));
        }
    }

    /// Adds `blocks` when none of their minutes is occupied on its day, and returns whether it did.
    /// When any minute is taken, the occupied minutes are left as they were.
    /// Blocks of one call are checked against the occupancy before the call, not against each other.
    pub fn try_add_blocks(&mut self, blocks: &[MeetingBlock]) -> (r: bool)
        requires
            old(self).wf(),
        ensures
            final(self).wf(),
            r == accepts(old(self)@, blocks@),
            r ==> final(self)@ == added(old(self)@, blocks@),
            !r ==> final(self)@ == old(self)@,
    {
        let mut i: usize = 0;
        while i < blocks.len()
            invariant
                i <= blocks@.len(),
                self.wf(),
                self@ == old(self)@,
                forall|k: int, m: int|
                    0 <= k < i && block_minutes(blocks@[k].start_min as int, blocks@[k].end_min as int).contains(m)
                        ==> !#[trigger] self@.contains((blocks@[k].day_code@, m)),
            decreases blocks@.len() - i,
        {
            let b = &blocks[i];
            let idx = self.day_index(&b.day_code);
            if range_overlaps(&self.bits[idx], b.start_min, b.end_min) {
                proof {
                    let m = choose|m: int|
                        day_minutes(self.bits[idx as int]@).contains(m) && block_minutes(
                            b.start_min as int,
                            b.end_min as int,
                        ).contains(m);
                    self.lemma_day_view(idx as int, m);
                    assert(blocks_minutes(blocks@).contains((b.day_code@, m)));
                }
                return false;
            }
            proof {
                assert forall|k: int, m: int|
                    0 <= k < i + 1 && block_minutes(blocks@[k].start_min as int, blocks@[k].end_min as int).contains(m)
                        implies !#[trigger] self@.contains((blocks@[k].day_code@, m)) by {
                    if k == i {
                        self.lemma_day_view(idx as int, m);
                    }
                }
            }
            i = i + 1;
        }
        proof {
            assert(accepts(old(self)@, blocks@)) by {
                assert forall|p: (Seq<char>, int)| old(self)@.contains(p) implies !blocks_minutes(
                    blocks@,
                ).contains(p) by {
                    if blocks_minutes(blocks@).contains(p) {
                        let k = choose|k: int|
                            0 <= k < blocks@.len() && #[trigger] blocks@[k].day_code@ == p.0
                                && block_minutes(blocks@[k].start_min as int, blocks@[k].end_min as int).contains(p.1);
                        assert(!self@.contains((blocks@[k].day_code@, p.1)));
                    }
                }
            }
        }
        let mut i: usize = 0;
        while i < blocks.len()
            invariant
                i <= blocks@.len(),
                self.wf(),
                self@ == old(self)@.union(blocks_minutes(blocks@.take(i as int))),
            decreases blocks@.len() - i,
        {
            let b = &blocks[i];
            let idx = self.day_index(&b.day_code);
            let ghost before = *self;
            range_or(&mut self.bits[idx], b.start_min, b.end_min);
            proof {
                Self::lemma_view_update(
                    before,
                    *self,
                    idx as int,
                    block_minutes(b.start_min as int, b.end_min as int),
                    true,
                );
                lemma_blocks_minutes_take(blocks@, i as int);
                assert(self@ =~= old(self)@.union(blocks_minutes(blocks@.take(i + 1))));
            }
            i = i + 1;
        }
        proof {
            assert(blocks@.take(blocks@.len() as int) =~= blocks@);
        }
        true
    }

    /// Clears the minutes of `blocks` from the days that have a bitmap.
    pub fn remove_blocks(&mut self, blocks: &[MeetingBlock])
        requires
            old(self).wf(),
        ensures
            final(self).wf(),
            final(self)@ == removed(old(self)@, blocks@),
    {
        let mut i: usize = 0;
        while i < blocks.len()
            invariant
                i <= blocks@.len(),
                self.wf(),
                self@ == old(self)@.difference(blocks_minutes(blocks@.take(i as int))),
            decreases blocks@.len() - i,
        {
            let b = &blocks[i];
            proof {
                lemma_blocks_minutes_take(blocks@, i as int);
            }
            match self.find_day(&b.day_code) {
                Some(idx) => {
                    let ghost before = *self;
                    range_clear(&mut self.bits[idx], b.start_min, b.end_min);
                    proof {
                        Self::lemma_view_update(
                            before,
                            *self,
                            idx as int,
                            block_minutes(b.start_min as int, b.end_min as int),
                            false,
                        );
                        assert(self@ =~= old(self)@.difference(blocks_minutes(blocks@.take(i + 1))));
                    }
                },
                None => {
                    proof {
                        assert forall|p: (Seq<char>, int)| #[trigger] self@.contains(p) implies p.0
                            != b.day_code@ by {
                            let k = choose|k: int|
                                0 <= k < self.days.len() && #[trigger] self.days[k]@ == p.0
                                    && day_minutes(self.bits[k]@).contains(p.1);
                        }
                        assert(self@ =~= old(self)@.difference(blocks_minutes(blocks@.take(i + 1))));
                    }
                },
            }
            i = i + 1;
        }
        proof {
            assert(blocks@.take(blocks@.len() as int) =~= blocks@);
        }
    }
}

impl Default for WeeklyOccupancy {
    /// An empty week, as `new` makes it.
    fn default() -> (r: Self)
        ensures
            r.wf(),
            r@ == Set::<(Seq<char>, int)>::empty(),
    {
        WeeklyOccupancy::new()
    }
}

/// The `(day, minute)` pairs of day `d` whose minute is in `ms`.
pub open spec fn day_pairs(d: Seq<char>, ms: Set<int>) -> Set<(Seq<char>, int)> {
    Set::new(|p: (Seq<char>, int)| p.0 == d && ms.contains(p.1))
}

/// The minutes of the first `i + 1` blocks are those of the first `i` and those of block `i`.
proof fn lemma_blocks_minutes_take(blocks: Seq<MeetingBlock>, i: int)
    requires
        0 <= i < blocks.len(),
    ensures
        blocks_minutes(blocks.take(i + 1)) == blocks_minutes(blocks.take(i)).union(
            day_pairs(blocks[i].day_code@, block_minutes(blocks[i].start_min as int, blocks[i].end_min as int)),
        ),
{
    let a = blocks.take(i + 1);
    let b = blocks.take(i);
    assert forall|p: (Seq<char>, int)| #[trigger] blocks_minutes(a).contains(p) == (blocks_minutes(
        b,
    ).contains(p) || day_pairs(blocks[i].day_code@, block_minutes(blocks[i].start_min as int, blocks[i].end_min as int)).contains(p)) by {
        if blocks_minutes(a).contains(p) {
            let k = choose|k: int|
                0 <= k < a.len() && #[trigger] a[k].day_code@ == p.0 && block_minutes(
                    a[k].start_min as int,
                    a[k].end_min as int,
                ).contains(p.1);
            if k < i {
                assert(b[k] == a[k]);
            }
        }
        if blocks_minutes(b).contains(p) {
            let k = choose|k: int|
                0 <= k < b.len() && #[trigger] b[k].day_code@ == p.0 && block_minutes(
                    b[k].start_min as int,
                    b[k].end_min as int,
                ).contains(p.1);
            assert(a[k] == b[k]);
        }
        if day_pairs(blocks[i].day_code@, block_minutes(blocks[i].start_min as int, blocks[i].end_min as int)).contains(p) {
            assert(a[i] == blocks[i]);
        }
    }
    assert(blocks_minutes(a) =~= blocks_minutes(b).union(
        day_pairs(blocks[i].day_code@, block_minutes(blocks[i].start_min as int, blocks[i].end_min as int)),
    ));
}

/// Two non-empty meetings inside one day share a minute exactly when
/// `s1 < e2 && s2 < e1` (half-open intervals: touching ends do not overlap).
pub proof fn lemma_half_open_overlap(s1: int, e1: int, s2: int, e2: int)
    requires
        0 <= s1 < e1 <= MINUTES_PER_DAY,
        0 <= s2 < e2 <= MINUTES_PER_DAY,
    ensures
        !block_minutes(s1, e1).disjoint(block_minutes(s2, e2)) <==> (s1 < e2 && s2 < e1),
{
    if s1 < e2 && s2 < e1 {
        let m = if s1 < s2 {
            s2
        } else {
            s1
        };
        assert(block_minutes(s1, e1).contains(m) && block_minutes(s2, e2).contains(m));
    }
}

/// Removing the blocks that were just added (successfully) restores the occupancy:
/// `remove_blocks` undoes an accepted `try_add_blocks`.
pub proof fn lemma_remove_undoes_add(occ: Set<(Seq<char>, int)>, blocks: Seq<MeetingBlock>)
    requires
        accepts(occ, blocks),
    ensures
        removed(added(occ, blocks), blocks) == occ,
{
    assert(removed(added(occ, blocks), blocks) =~= occ);
}

/// A refused addition changes nothing, and an accepted one marks exactly the blocks' minutes:
/// afterwards every minute of the blocks is occupied, and the same blocks are refused again
/// whenever they cover at least one minute.
pub proof fn lemma_added_blocks_are_occupied(occ: Set<(Seq<char>, int)>, blocks: Seq<MeetingBlock>)
    requires
        accepts(occ, blocks),
    ensures
        forall|p: (Seq<char>, int)| #[trigger] blocks_minutes(blocks).contains(p) ==> added(occ, blocks).contains(p),
        !blocks_minutes(blocks).is_empty() ==> !accepts(added(occ, blocks), blocks),
{
    if !blocks_minutes(blocks).is_empty() {
        let p = blocks_minutes(blocks).choose();
        assert(added(occ, blocks).contains(p));
    }
}

} // verus!
