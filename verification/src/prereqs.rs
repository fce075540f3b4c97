//! Prerequisite groups: parsing them from JSON, the per-course table, and the transitive check
//! that a schedule satisfies them.
use vstd::prelude::*;
use crate::text::{chars_of, spec_to_uppercase, string_from_chars, to_uppercase, trim, trim_string};

verus! {

/// The views of a list of strings.
pub open spec fn strings_view(v: Seq<String>) -> Seq<Seq<char>> {
    v.map_values(|s: String| s@)
}

/// The views of a list of lists of strings.
pub open spec fn groups_view(v: Seq<Vec<String>>) -> Seq<Seq<Seq<char>>> {
    v.map_values(|g: Vec<String>| strings_view(g@))
}

/// Prerequisite clauses per course code: a list of OR-groups, all of which must hold.
#[derive(Debug, Clone)]
pub struct PrereqMap {
    keys: Vec<String>,
    clauses: Vec<Vec<Vec<String>>>,
}

impl View for PrereqMap {
    type V = Map<Seq<char>, Seq<Seq<Seq<char>>>>;

    /// Course code to its clauses.
    closed spec fn view(&self) -> Map<Seq<char>, Seq<Seq<Seq<char>>>> {
        Map::new(
            |k: Seq<char>| exists|i: int| 0 <= i < self.keys.len() && (#[trigger] self.keys[i])@ == k,
            |k: Seq<char>|
                {
                    let i = choose|i: int| 0 <= i < self.keys.len() && (#[trigger] self.keys[i])@ == k;
                    groups_view(self.clauses[i]@)
                },
        )
    }
}

impl PrereqMap {
    /// Keys and clause lists line up, and no key occurs twice.
    pub closed spec fn wf(&self) -> bool {
        &&& self.keys.len() == self.clauses.len()
        &&& forall|i: int, j: int|
            0 <= i < j < self.keys.len() ==> (#[trigger] self.keys[i])@ != (#[trigger] self.keys[j])@
    }

    proof fn lemma_view_at(&self, i: int)
        requires
            self.wf(),
            0 <= i < self.keys.len(),
        ensures
            self@.contains_key(self.keys[i]@),
            self@[self.keys[i]@] == groups_view(self.clauses[i]@),
    {
        let k = self.keys[i]@;
        assert(self@.dom().contains(k));
        let j = choose|j: int| 0 <= j < self.keys.len() && (#[trigger] self.keys[j])@ == k;
        if j != i {
            if j < i {
                assert(self.keys[j]@ != self.keys[i]@);
            } else {
                assert(self.keys[i]@ != self.keys[j]@);
            }
        }
    }

    /// An empty table.
    pub fn new() -> (r: Self)
        ensures
            r.wf(),
            r@ == Map::<Seq<char>, Seq<Seq<Seq<char>>>>::empty(),
    {
        let r = PrereqMap { keys: Vec::new(), clauses: Vec::new() };
        assert(r@ =~= Map::<Seq<char>, Seq<Seq<Seq<char>>>>::empty());
        r
    }

    /// The position of `code`, when it has an entry.
    fn find(&self, code: &String) -> (r: Option<usize>)
        requires
            self.wf(),
        ensures
            match r {
                Some(i) => i < self.keys.len() && self.keys[i as int]@ == code@,
                None => forall|i: int| 0 <= i < self.keys.len() ==> (#[trigger] self.keys[i])@ != code@,
            },
    {
        let mut i: usize = 0;
        while i < self.keys.len()
            invariant
                i <= self.keys.len(),
                forall|k: int| 0 <= k < i ==> (#[trigger] self.keys[k])@ != code@,
            decreases self.keys.len() - i,
        {
            if self.keys[i] == *code {
                return Some(i);
            }
            i = i + 1;
        }
        None
    }

    /// The clauses of `code`, when it has an entry.
    pub fn get(&self, code: &String) -> (r: Option<&Vec<Vec<String>>>)
        requires
            self.wf(),
        ensures
            match r {
                Some(c) => self@.contains_key(code@) && self@[code@] == groups_view(c@),
                None => !self@.contains_key(code@),
            },
    {
        match self.find(code) {
            Some(i) => {
                proof {
                    self.lemma_view_at(i as int);
                }
                Some(&self.clauses[i])
            },
            None => {
                proof {
                    if self@.contains_key(code@) {
                        let j = choose|j: int| 0 <= j < self.keys.len() && (#[trigger] self.keys[j])@ == code@;
                    }
                }
                None
            },
        }
    }

    /// Sets the clauses of `code`, replacing any earlier ones.
    pub fn insert(&mut self, code: String, clauses: Vec<Vec<String>>)
        requires
            old(self).wf(),
        ensures
            final(self).wf(),
            final(self)@ == old(self)@.insert(code@, groups_view(clauses@)),
    {
        let ghost cv = groups_view(clauses@);
        match self.find(&code) {
            Some(i) => {
                self.clauses.set(i, clauses);
                proof {
                    assert forall|k: Seq<char>| #[trigger] self@.contains_key(k) == old(self)@.insert(code@, cv).contains_key(k) by {
                        if old(self)@.contains_key(k) {
                            let j = choose|j: int| 0 <= j < old(self).keys.len() && (#[trigger] old(self).keys[j])@ == k;
                            assert(self.keys[j]@ == k);
                        }
                        if self@.contains_key(k) {
                            let j = choose|j: int| 0 <= j < self.keys.len() && (#[trigger] self.keys[j])@ == k;
                            assert(old(self).keys[j]@ == k);
                        }
                    }
                    assert forall|k: Seq<char>| #[trigger] self@.contains_key(k) implies self@[k] == old(self)@.insert(code@, cv)[k] by {
                        let j = choose|j: int| 0 <= j < self.keys.len() && (#[trigger] self.keys[j])@ == k;
                        self.lemma_view_at(j);
                        if j != i {
                            old(self).lemma_view_at(j);
                        }
                    }
                    assert(self@ =~= old(self)@.insert(code@, cv));
                }
            },
            None => {
                self.keys.push(code);
                self.clauses.push(clauses);
                proof {
                    let n = old(self).keys.len() as int;
                    assert forall|k: Seq<char>| #[trigger] self@.contains_key(k) == old(self)@.insert(code@, cv).contains_key(k) by {
                        if old(self)@.contains_key(k) {
                            let j = choose|j: int| 0 <= j < old(self).keys.len() && (#[trigger] old(self).keys[j])@ == k;
                            assert(self.keys[j]@ == k);
                        }
                        if k == code@ {
                            assert(self.keys[n]@ == k);
                        }
                        if self@.contains_key(k) {
                            let j = choose|j: int| 0 <= j < self.keys.len() && (#[trigger] self.keys[j])@ == k;
                            if j < n {
                                assert(old(self).keys[j]@ == k);
                            }
                        }
                    }
                    assert forall|k: Seq<char>| #[trigger] self@.contains_key(k) implies self@[k] == old(self)@.insert(code@, cv)[k] by {
                        let j = choose|j: int| 0 <= j < self.keys.len() && (#[trigger] self.keys[j])@ == k;
                        self.lemma_view_at(j);
                        if j < n {
                            old(self).lemma_view_at(j);
                        }
                    }
                    assert(self@ =~= old(self)@.insert(code@, cv));
                }
            },
        }
    }
}

/// Course `c` has a derivation of depth at most `n`: every non-empty OR-group of its clauses
/// has an alternative that is in the schedule `sel` and has a derivation of depth at most
/// `n - 1`. A course without clauses (or without an entry) needs nothing.
pub open spec fn satisfied_within(
    map: Map<Seq<char>, Seq<Seq<Seq<char>>>>,
    sel: Seq<Seq<char>>,
    c: Seq<char>,
    n: nat,
) -> bool
    decreases n,
{
    if n == 0 {
        false
    } else {
        !map.contains_key(c) || forall|g: int|
            0 <= g < map[c].len() ==> (#[trigger] map[c][g]).len() == 0 || exists|k: int|
                0 <= k < map[c][g].len() && sel.contains(#[trigger] map[c][g][k])
                    && satisfied_within(map, sel, map[c][g][k], (n - 1) as nat)
    }
}

/// Course `c`'s prerequisites are satisfied by the schedule `sel`, transitively and without
/// cycles: it has a derivation of some finite depth.
pub open spec fn prereqs_satisfied(
    map: Map<Seq<char>, Seq<Seq<Seq<char>>>>,
    sel: Seq<Seq<char>>,
    c: Seq<char>,
) -> bool {
    exists|n: nat| satisfied_within(map, sel, c, n)
}

/// Every course of the schedule has its prerequisites satisfied within the schedule.
pub open spec fn schedule_satisfies(map: Map<Seq<char>, Seq<Seq<Seq<char>>>>, sel: Seq<Seq<char>>) -> bool {
    forall|i: int| 0 <= i < sel.len() ==> prereqs_satisfied(map, sel, #[trigger] sel[i])
}

/// A derivation of depth `n` is also one of depth `n + 1`.
proof fn lemma_within_mono(map: Map<Seq<char>, Seq<Seq<Seq<char>>>>, sel: Seq<Seq<char>>, n: nat)
    ensures
        forall|c: Seq<char>|
            #[trigger] satisfied_within(map, sel, c, n) ==> satisfied_within(map, sel, c, n + 1),
    decreases n,
{
    if n > 0 {
        lemma_within_mono(map, sel, (n - 1) as nat);
        assert forall|c: Seq<char>| #[trigger] satisfied_within(map, sel, c, n) implies satisfied_within(
            map,
            sel,
            c,
            n + 1,
        ) by {
            if map.contains_key(c) {
                assert forall|g: int| 0 <= g < map[c].len() implies (#[trigger] map[c][g]).len() == 0
                    || exists|k: int|
                    0 <= k < map[c][g].len() && sel.contains(#[trigger] map[c][g][k])
                        && satisfied_within(map, sel, map[c][g][k], n) by {
                    if map[c][g].len() != 0 {
                        let k = choose|k: int|
                            0 <= k < map[c][g].len() && sel.contains(#[trigger] map[c][g][k])
                                && satisfied_within(map, sel, map[c][g][k], (n - 1) as nat);
                        assert(satisfied_within(map, sel, map[c][g][k], n));
                    }
                }
            }
        }
    }
}

proof fn lemma_within_mono_le(map: Map<Seq<char>, Seq<Seq<Seq<char>>>>, sel: Seq<Seq<char>>, c: Seq<char>, a: nat, b: nat)
    requires
        a <= b,
        satisfied_within(map, sel, c, a),
    ensures
        satisfied_within(map, sel, c, b),
    decreases b - a,
{
    if a < b {
        lemma_within_mono(map, sel, a);
        lemma_within_mono_le(map, sel, c, a + 1, b);
    }
}

/// When depths `m` and `r` agree on the schedule's courses, so do depths `m + 1` and `r + 1`.
proof fn lemma_within_step(map: Map<Seq<char>, Seq<Seq<Seq<char>>>>, sel: Seq<Seq<char>>, m: nat, r: nat)
    requires
        forall|a: Seq<char>|
            sel.contains(a) ==> satisfied_within(map, sel, a, m) == satisfied_within(map, sel, a, r),
    ensures
        forall|c: Seq<char>|
            #[trigger] satisfied_within(map, sel, c, m + 1) == satisfied_within(map, sel, c, r + 1),
{
    assert forall|c: Seq<char>| #[trigger] satisfied_within(map, sel, c, m + 1) == satisfied_within(
        map,
        sel,
        c,
        r + 1,
    ) by {
        if map.contains_key(c) {
            assert forall|g: int, k: int|
                0 <= g < map[c].len() && 0 <= k < map[c][g].len() && sel.contains(#[trigger] map[c][g][k])
                    implies satisfied_within(map, sel, map[c][g][k], m) == satisfied_within(
                map,
                sel,
                map[c][g][k],
                r,
            ) by {}
        }
    }
}

/// Once one round changes nothing on the schedule's courses, no later depth does.
proof fn lemma_within_stable(map: Map<Seq<char>, Seq<Seq<Seq<char>>>>, sel: Seq<Seq<char>>, r: nat, m: nat)
    requires
        r <= m,
        forall|a: Seq<char>|
            sel.contains(a) ==> satisfied_within(map, sel, a, r + 1) == satisfied_within(map, sel, a, r),
    ensures
        forall|a: Seq<char>|
            sel.contains(a) ==> satisfied_within(map, sel, a, m) == satisfied_within(map, sel, a, r),
    decreases m - r,
{
    if m > r {
        lemma_within_stable(map, sel, r, (m - 1) as nat);
        lemma_within_step(map, sel, (m - 1) as nat, r);
    }
}

/// The number of `true` entries.
pub open spec fn count_true(s: Seq<bool>) -> nat
    decreases s.len(),
{
    if s.len() == 0 {
        0
    } else {
        count_true(s.drop_last()) + if s.last() {
            1nat
        } else {
            0nat
        }
    }
}

proof fn lemma_count_true_grows(a: Seq<bool>, b: Seq<bool>)
    requires
        a.len() == b.len(),
        forall|i: int| 0 <= i < a.len() && a[i] ==> b[i],
    ensures
        count_true(a) <= count_true(b) <= a.len(),
        a != b ==> count_true(a) < count_true(b),
    decreases a.len(),
{
    if a.len() == 0 {
        assert(a =~= b);
    } else {
        lemma_count_true_grows(a.drop_last(), b.drop_last());
        if a != b && a.drop_last() == b.drop_last() {
            assert(a.last() != b.last()) by {
                if a.last() == b.last() {
                    assert forall|i: int| 0 <= i < a.len() implies a[i] == b[i] by {
                        if i < a.len() - 1 {
                            assert(a[i] == a.drop_last()[i]);
                            assert(b[i] == b.drop_last()[i]);
                        }
                    }
                    assert(a =~= b);
                }
            }
        }
    }
}

/// Index of the first entry of `sel` equal to `a`.
fn index_of(sel: &[String], a: &String) -> (r: Option<usize>)
    ensures
        match r {
            Some(j) => j < sel@.len() && sel@[j as int]@ == a@,
            None => !strings_view(sel@).contains(a@),
        },
{
    let mut j: usize = 0;
    while j < sel.len()
        invariant
            j <= sel@.len(),
            forall|k: int| 0 <= k < j ==> (#[trigger] sel@[k])@ != a@,
        decreases sel@.len() - j,
    {
        if sel[j] == *a {
            return Some(j);
        }
        j = j + 1;
    }
    proof {
        if strings_view(sel@).contains(a@) {
            let k = choose|k: int| 0 <= k < strings_view(sel@).len() && strings_view(sel@)[k] == a@;
            assert(sel@[k]@ == a@);
        }
    }
    None
}

/// One round: whether course `c` has a derivation of depth `r + 1`, given which courses of the
/// schedule have one of depth `r`.
fn course_step(map: &PrereqMap, sel: &[String], known: &Vec<bool>, c: &String, Ghost(r): Ghost<nat>) -> (ok: bool)
    requires
        map.wf(),
        known@.len() == sel@.len(),
        forall|j: int| 0 <= j < sel@.len() ==> known@[j] == satisfied_within(map@, strings_view(sel@), sel@[j]@, r),
    ensures
        ok == satisfied_within(map@, strings_view(sel@), c@, r + 1),
{
    let ghost sv = strings_view(sel@);
    let ghost m = map@;
    let clauses = match map.get(c) {
        None => {
            return true;
        },
        Some(cl) => cl,
    };
    let mut g: usize = 0;
    while g < clauses.len()
        invariant
            g <= clauses@.len(),
            m == map@,
            m.contains_key(c@),
            m[c@] == groups_view(clauses@),
            known@.len() == sel@.len(),
            sv == strings_view(sel@),
            forall|j: int| 0 <= j < sel@.len() ==> known@[j] == satisfied_within(m, sv, sel@[j]@, r),
            forall|q: int|
                0 <= q < g ==> (#[trigger] m[c@][q]).len() == 0 || exists|k: int|
                    0 <= k < m[c@][q].len() && sv.contains(#[trigger] m[c@][q][k])
                        && satisfied_within(m, sv, m[c@][q][k], r),
        decreases clauses@.len() - g,
    {
        let group = &clauses[g];
        assert(m[c@][g as int] == strings_view(group@));
        if group.len() > 0 {
            let mut found = false;
            let mut k: usize = 0;
            while k < group.len()
                invariant
                    k <= group@.len(),
                    known@.len() == sel@.len(),
                    m[c@][g as int] == strings_view(group@),
                    forall|j: int| 0 <= j < sel@.len() ==> known@[j] == satisfied_within(m, sv, sel@[j]@, r),
                    sv == strings_view(sel@),
                    found ==> exists|q: int|
                        0 <= q < m[c@][g as int].len() && sv.contains(#[trigger] m[c@][g as int][q])
                            && satisfied_within(m, sv, m[c@][g as int][q], r),
                    !found ==> forall|q: int|
                        0 <= q < k ==> !(sv.contains(#[trigger] m[c@][g as int][q])
                            && satisfied_within(m, sv, m[c@][g as int][q], r)),
                decreases group@.len() - k,
            {
                match index_of(sel, &group[k]) {
                    Some(j) => {
                        if known[j] {
                            proof {
                                assert(sv[j as int] == group@[k as int]@);
                                assert(m[c@][g as int][k as int] == group@[k as int]@);
                            }
                            found = true;
                        } else {
                            proof {
                                assert(sv[j as int] == group@[k as int]@);
                                assert(m[c@][g as int][k as int] == group@[k as int]@);
                                assert forall|j2: int| 0 <= j2 < sv.len() && sv[j2] == group@[k as int]@ implies
                                    !satisfied_within(m, sv, sv[j2], r) by {
                                    assert(sel@[j2]@ == sv[j2]);
                                }
                            }
                        }
                    },
                    None => {
                        proof {
                            assert(m[c@][g as int][k as int] == group@[k as int]@);
                        }
                    },
                }
                k = k + 1;
            }
            if !found {
                proof {
                    let grp = m[c@][g as int];
                    assert(grp.len() != 0);
                    assert(!(exists|q: int|
                        0 <= q < grp.len() && sv.contains(#[trigger] grp[q])
                            && satisfied_within(m, sv, grp[q], r)));
                    assert(!(grp.len() == 0 || exists|q: int|
                        0 <= q < m[c@][g as int].len() && sv.contains(#[trigger] m[c@][g as int][q])
                            && satisfied_within(m, sv, m[c@][g as int][q], r)));
                    assert(!satisfied_within(m, sv, c@, r + 1));
                }
                return false;
            }
        }
        g = g + 1;
    }
    true
}

/// Whether every course of the schedule `selected` has its prerequisite groups satisfied within
/// the schedule: each AND-clause (OR-group) must be met by some alternative that appears in the
/// schedule and whose own prerequisite groups are recursively satisfied (transitive closure);
/// a cycle of requirements satisfies nothing. Empty OR-groups are ignored, and a course without
/// clauses needs nothing.
pub fn schedule_satisfies_prereq_groups(selected: &[String], by_course: &PrereqMap) -> (r: bool)
    requires
        by_course.wf(),
    ensures
        r == schedule_satisfies(by_course@, strings_view(selected@)),
{
    let ghost m = by_course@;
    let ghost sv = strings_view(selected@);
    let n = selected.len();
    let mut known: Vec<bool> = vec![false; n];
    let ghost mut r: nat = 0;
    let mut done = false;
    proof {
        lemma_count_true_grows(known@, known@);
    }
    while !done
        invariant
            n == selected@.len(),
            m == by_course@,
            sv == strings_view(selected@),
            by_course.wf(),
            known@.len() == n,
            forall|j: int| 0 <= j < n ==> known@[j] == satisfied_within(m, sv, selected@[j]@, r),
            done ==> forall|a: Seq<char>|
                sv.contains(a) ==> satisfied_within(m, sv, a, r + 1) == satisfied_within(m, sv, a, r),
            count_true(known@) <= n,
        decreases 2 * (n - count_true(known@)) + if done {
            0int
        } else {
            1int
        },
    {
        let mut next: Vec<bool> = Vec::new();
        let mut i: usize = 0;
        while i < n
            invariant
                i <= n,
                n == selected@.len(),
                m == by_course@,
                sv == strings_view(selected@),
                by_course.wf(),
                known@.len() == n,
                forall|j: int| 0 <= j < n ==> known@[j] == satisfied_within(m, sv, selected@[j]@, r),
                next@.len() == i,
                forall|j: int| 0 <= j < i ==> next@[j] == satisfied_within(m, sv, selected@[j]@, r + 1),
            decreases n - i,
        {
            let b = course_step(by_course, selected, &known, &selected[i], Ghost(r));
            next.push(b);
            i = i + 1;
        }
        proof {
            lemma_within_mono(m, sv, r);
            lemma_count_true_grows(known@, next@);
        }
        let mut same = true;
        let mut i: usize = 0;
        while i < n
            invariant
                i <= n,
                known@.len() == n,
                next@.len() == n,
                same == (forall|j: int| 0 <= j < i ==> next@[j] == known@[j]),
            decreases n - i,
        {
            if next[i] != known[i] {
                same = false;
            }
            i = i + 1;
        }
        if same {
            proof {
                assert forall|a: Seq<char>| sv.contains(a) implies satisfied_within(m, sv, a, r + 1)
                    == satisfied_within(m, sv, a, r) by {
                    let j = choose|j: int| 0 <= j < sv.len() && sv[j] == a;
                    assert(selected@[j]@ == a);
                    assert(next@[j] == known@[j]);
                }
            }
            done = true;
        } else {
            proof {
                assert(known@ != next@) by {
                    let j = choose|j: int| 0 <= j < n && next@[j] != known@[j];
                    assert(next@[j] != known@[j]);
                }
                r = r + 1;
            }
            known = next;
        }
    }
    proof {
        assert forall|a: Seq<char>| sv.contains(a) implies prereqs_satisfied(m, sv, a) == satisfied_within(
            m,
            sv,
            a,
            r,
        ) by {
            if prereqs_satisfied(m, sv, a) {
                let d = choose|d: nat| satisfied_within(m, sv, a, d);
                if d <= r {
                    lemma_within_mono_le(m, sv, a, d, r);
                } else {
                    lemma_within_stable(m, sv, r, d);
                }
            }
        }
    }
    let mut all = true;
    let mut i: usize = 0;
    while i < n
        invariant
            i <= n,
            n == selected@.len(),
            sv == strings_view(selected@),
            known@.len() == n,
            forall|j: int| 0 <= j < n ==> known@[j] == satisfied_within(m, sv, selected@[j]@, r),
            forall|a: Seq<char>| sv.contains(a) ==> prereqs_satisfied(m, sv, a) == satisfied_within(m, sv, a, r),
            all == (forall|j: int| 0 <= j < i ==> prereqs_satisfied(m, sv, #[trigger] sv[j])),
        decreases n - i,
    {
        proof {
            assert(sv[i as int] == selected@[i as int]@);
            assert(sv.contains(sv[i as int]));
        }
        if !known[i] {
            all = false;
        }
        i = i + 1;
    }
    all
}

/// A course's groups are met at the given depths.
spec fn groups_met_at(
    map: Map<Seq<char>, Seq<Seq<Seq<char>>>>,
    sel: Seq<Seq<char>>,
    c: Seq<char>,
    upto: int,
    d: nat,
) -> bool {
    forall|g: int|
        0 <= g < upto ==> (#[trigger] map[c][g]).len() == 0 || exists|k: int|
            0 <= k < map[c][g].len() && sel.contains(#[trigger] map[c][g][k])
                && satisfied_within(map, sel, map[c][g][k], d)
}

proof fn lemma_common_depth(map: Map<Seq<char>, Seq<Seq<Seq<char>>>>, sel: Seq<Seq<char>>, c: Seq<char>, upto: int)
    requires
        map.contains_key(c),
        0 <= upto <= map[c].len(),
        forall|g: int|
            0 <= g < map[c].len() ==> (#[trigger] map[c][g]).len() == 0 || exists|k: int|
                0 <= k < map[c][g].len() && sel.contains(#[trigger] map[c][g][k])
                    && prereqs_satisfied(map, sel, map[c][g][k]),
    ensures
        exists|d: nat| groups_met_at(map, sel, c, upto, d),
    decreases upto,
{
    if upto == 0 {
        assert(groups_met_at(map, sel, c, 0, 0));
    } else {
        lemma_common_depth(map, sel, c, upto - 1);
        let u = upto - 1;
        let d0 = choose|d: nat| groups_met_at(map, sel, c, u, d);
        let g = upto - 1;
        if map[c][g].len() == 0 {
            assert(groups_met_at(map, sel, c, upto, d0));
        } else {
            let k = choose|k: int|
                0 <= k < map[c][g].len() && sel.contains(#[trigger] map[c][g][k])
                    && prereqs_satisfied(map, sel, map[c][g][k]);
            let dk = choose|d: nat| satisfied_within(map, sel, map[c][g][k], d);
            let d = if dk > d0 {
                dk
            } else {
                d0
            };
            lemma_within_mono_le(map, sel, map[c][g][k], dk, d);
            assert forall|q: int| 0 <= q < upto implies (#[trigger] map[c][q]).len() == 0 || exists|k2: int|
                0 <= k2 < map[c][q].len() && sel.contains(#[trigger] map[c][q][k2])
                    && satisfied_within(map, sel, map[c][q][k2], d) by {
                if q < upto - 1 && map[c][q].len() != 0 {
                    let k2 = choose|k2: int|
                        0 <= k2 < map[c][q].len() && sel.contains(#[trigger] map[c][q][k2])
                            && satisfied_within(map, sel, map[c][q][k2], d0);
                    lemma_within_mono_le(map, sel, map[c][q][k2], d0, d);
                }
            }
            assert(groups_met_at(map, sel, c, upto, d));
        }
    }
}

/// The prerequisite rule as a fixed point: a course is satisfied exactly when it has no clauses,
/// or each of its non-empty OR-groups has an alternative that is in the schedule and is itself
/// satisfied.
pub proof fn lemma_prereqs_fixed_point(
    map: Map<Seq<char>, Seq<Seq<Seq<char>>>>,
    sel: Seq<Seq<char>>,
    c: Seq<char>,
)
    ensures
        prereqs_satisfied(map, sel, c) <==> (!map.contains_key(c) || forall|g: int|
            0 <= g < map[c].len() ==> (#[trigger] map[c][g]).len() == 0 || exists|k: int|
                0 <= k < map[c][g].len() && sel.contains(#[trigger] map[c][g][k])
                    && prereqs_satisfied(map, sel, map[c][g][k])),
{
    if prereqs_satisfied(map, sel, c) {
        let n = choose|n: nat| satisfied_within(map, sel, c, n);
        if map.contains_key(c) {
            assert forall|g: int| 0 <= g < map[c].len() implies (#[trigger] map[c][g]).len() == 0
                || exists|k: int|
                0 <= k < map[c][g].len() && sel.contains(#[trigger] map[c][g][k])
                    && prereqs_satisfied(map, sel, map[c][g][k]) by {
                if map[c][g].len() != 0 {
                    let k = choose|k: int|
                        0 <= k < map[c][g].len() && sel.contains(#[trigger] map[c][g][k])
                            && satisfied_within(map, sel, map[c][g][k], (n - 1) as nat);
                    assert(prereqs_satisfied(map, sel, map[c][g][k]));
                }
            }
        }
    } else {
        if !map.contains_key(c) {
            assert(satisfied_within(map, sel, c, 1));
        } else if forall|g: int|
            0 <= g < map[c].len() ==> (#[trigger] map[c][g]).len() == 0 || exists|k: int|
                0 <= k < map[c][g].len() && sel.contains(#[trigger] map[c][g][k])
                    && prereqs_satisfied(map, sel, map[c][g][k]) {
            let len = map[c].len() as int;
            lemma_common_depth(map, sel, c, len);
            let d = choose|d: nat| groups_met_at(map, sel, c, len, d);
            assert(satisfied_within(map, sel, c, d + 1));
        }
    }
}

proof fn lemma_within_same_courses(
    map: Map<Seq<char>, Seq<Seq<Seq<char>>>>,
    a: Seq<Seq<char>>,
    b: Seq<Seq<char>>,
    n: nat,
)
    requires
        forall|x: Seq<char>| a.contains(x) <==> b.contains(x),
    ensures
        forall|c: Seq<char>| #[trigger] satisfied_within(map, a, c, n) == satisfied_within(map, b, c, n),
    decreases n,
{
    if n > 0 {
        let m = (n - 1) as nat;
        lemma_within_same_courses(map, a, b, m);
        assert forall|c: Seq<char>| #[trigger] satisfied_within(map, a, c, n) == satisfied_within(map, b, c, n) by {
            if map.contains_key(c) {
                assert forall|g: int| #![trigger map[c][g]] 0 <= g < map[c].len() implies (exists|k: int|
                    0 <= k < map[c][g].len() && a.contains(#[trigger] map[c][g][k])
                        && satisfied_within(map, a, map[c][g][k], m)) == (exists|k: int|
                    0 <= k < map[c][g].len() && b.contains(#[trigger] map[c][g][k])
                        && satisfied_within(map, b, map[c][g][k], m)) by {
                    if exists|k: int|
                        0 <= k < map[c][g].len() && a.contains(#[trigger] map[c][g][k])
                            && satisfied_within(map, a, map[c][g][k], m) {
                        let k = choose|k: int|
                            0 <= k < map[c][g].len() && a.contains(#[trigger] map[c][g][k])
                                && satisfied_within(map, a, map[c][g][k], m);
                        assert(b.contains(map[c][g][k]) && satisfied_within(map, b, map[c][g][k], m));
                    }
                    if exists|k: int|
                        0 <= k < map[c][g].len() && b.contains(#[trigger] map[c][g][k])
                            && satisfied_within(map, b, map[c][g][k], m) {
                        let k = choose|k: int|
                            0 <= k < map[c][g].len() && b.contains(#[trigger] map[c][g][k])
                                && satisfied_within(map, b, map[c][g][k], m);
                        assert(a.contains(map[c][g][k]) && satisfied_within(map, a, map[c][g][k], m));
                    }
                }
            }
        }
    }
}

/// Whether a schedule meets its prerequisites depends only on which courses it holds: two
/// schedules with the same courses, in any order and with any repetition, are judged alike.
pub proof fn lemma_prereqs_depend_on_course_set(
    map: Map<Seq<char>, Seq<Seq<Seq<char>>>>,
    a: Seq<Seq<char>>,
    b: Seq<Seq<char>>,
)
    requires
        a.to_set() == b.to_set(),
    ensures
        schedule_satisfies(map, a) == schedule_satisfies(map, b),
{
    assert forall|x: Seq<char>| a.contains(x) <==> b.contains(x) by {
        assert(a.contains(x) == a.to_set().contains(x));
        assert(b.contains(x) == b.to_set().contains(x));
    }
    assert forall|c: Seq<char>| prereqs_satisfied(map, a, c) == prereqs_satisfied(map, b, c) by {
        if prereqs_satisfied(map, a, c) {
            let n = choose|n: nat| satisfied_within(map, a, c, n);
            lemma_within_same_courses(map, a, b, n);
            assert(satisfied_within(map, b, c, n));
        }
        if prereqs_satisfied(map, b, c) {
            let n = choose|n: nat| satisfied_within(map, b, c, n);
            lemma_within_same_courses(map, a, b, n);
            assert(satisfied_within(map, a, c, n));
        }
    }
    if schedule_satisfies(map, a) {
        assert forall|j: int| 0 <= j < b.len() implies prereqs_satisfied(map, b, #[trigger] b[j]) by {
            assert(b.contains(b[j]));
            let i = choose|i: int| 0 <= i < a.len() && a[i] == b[j];
            assert(prereqs_satisfied(map, a, a[i]));
        }
    }
    if schedule_satisfies(map, b) {
        assert forall|i: int| 0 <= i < a.len() implies prereqs_satisfied(map, a, #[trigger] a[i]) by {
            assert(a.contains(a[i]));
            let j = choose|j: int| 0 <= j < b.len() && b[j] == a[i];
            assert(prereqs_satisfied(map, b, b[j]));
        }
    }
}

/// Requirements that only lead back into a group of courses satisfy none of them: if every
/// course of `s` has a non-empty OR-group whose alternatives in the schedule all lie in `s`,
/// then no course of `s` is satisfied (a prerequisite cycle fails).
pub proof fn lemma_closed_cycle_fails(
    map: Map<Seq<char>, Seq<Seq<Seq<char>>>>,
    sel: Seq<Seq<char>>,
    s: Set<Seq<char>>,
    c: Seq<char>,
)
    requires
        forall|x: Seq<char>|
            #[trigger] s.contains(x) ==> map.contains_key(x) && exists|g: int|
                0 <= g < map[x].len() && (#[trigger] map[x][g]).len() > 0 && forall|k: int|
                    0 <= k < map[x][g].len() && sel.contains(#[trigger] map[x][g][k]) ==> s.contains(
                        map[x][g][k],
                    ),
        s.contains(c),
    ensures
        !prereqs_satisfied(map, sel, c),
{
    assert forall|n: nat| !#[trigger] satisfied_within(map, sel, c, n) by {
        lemma_closed_cycle_depth(map, sel, s, n);
    }
}

proof fn lemma_closed_cycle_depth(
    map: Map<Seq<char>, Seq<Seq<Seq<char>>>>,
    sel: Seq<Seq<char>>,
    s: Set<Seq<char>>,
    n: nat,
)
    requires
        forall|x: Seq<char>|
            #[trigger] s.contains(x) ==> map.contains_key(x) && exists|g: int|
                0 <= g < map[x].len() && (#[trigger] map[x][g]).len() > 0 && forall|k: int|
                    0 <= k < map[x][g].len() && sel.contains(#[trigger] map[x][g][k]) ==> s.contains(
                        map[x][g][k],
                    ),
    ensures
        forall|x: Seq<char>| s.contains(x) ==> !#[trigger] satisfied_within(map, sel, x, n),
    decreases n,
{
    if n > 0 {
        lemma_closed_cycle_depth(map, sel, s, (n - 1) as nat);
        assert forall|x: Seq<char>| s.contains(x) implies !#[trigger] satisfied_within(map, sel, x, n) by {
            let g = choose|g: int|
                0 <= g < map[x].len() && (#[trigger] map[x][g]).len() > 0 && forall|k: int|
                    0 <= k < map[x][g].len() && sel.contains(#[trigger] map[x][g][k]) ==> s.contains(
                        map[x][g][k],
                    );
            assert(!(exists|k: int|
                0 <= k < map[x][g].len() && sel.contains(#[trigger] map[x][g][k])
                    && satisfied_within(map, sel, map[x][g][k], (n - 1) as nat)));
        }
    }
}

/// The message of the error `serde_json::from_str::<serde_json::Value>` reports on `text`,
/// or `None` when `text` is one JSON value.
pub uninterp spec fn spec_json_error(text: Seq<char>) -> Option<Seq<char>>;

/// The texts of the items of the JSON array `text` (each as `RawValue::get` returns it),
/// or `None` when `text` is not a JSON array.
pub uninterp spec fn spec_json_array_items(text: Seq<char>) -> Option<Seq<Seq<char>>>;

/// Whether `text` is a JSON array (`serde_json::from_str::<Vec<IgnoredAny>>` succeeds).
pub uninterp spec fn spec_json_is_array(text: Seq<char>) -> bool;

/// The strings of `text` when it is a JSON array of strings, else `None`.
pub uninterp spec fn spec_json_string_array(text: Seq<char>) -> Option<Seq<Seq<char>>>;

/// Calls `serde_json::from_str::<serde_json::Value>` and keeps its error message; the result
/// is the name `spec_json_error` of the text.
#[verifier::external_body]
fn json_error(text: &str) -> (r: Option<String>)
    ensures
        match r {
            Some(e) => spec_json_error(text@) == Some(e@),
            None => spec_json_error(text@) == Option::<Seq<char>>::None,
        },
{
    match serde_json::from_str::<serde_json::Value>(text) {
        Ok(_) => None,
        Err(e) => Some(e.to_string()),
    }
}

/// Calls `serde_json::from_str::<Vec<Box<serde_json::value::RawValue>>>` and returns the item
/// texts; the result is the name `spec_json_array_items` of the text.
#[verifier::external_body]
fn json_array_items(text: &str) -> (r: Option<Vec<String>>)
    ensures
        match r {
            Some(v) => spec_json_array_items(text@) == Some(strings_view(v@)),
            None => spec_json_array_items(text@) == Option::<Seq<Seq<char>>>::None,
        },
{
    match serde_json::from_str::<Vec<Box<serde_json::value::RawValue>>>(text) {
        Ok(items) => {
            let mut v = Vec::new();
            for item in items.iter() {
                v.push(item.get().to_string());
            }
            Some(v)
        },
        Err(_) => None,
    }
}

/// Calls `serde_json::from_str::<Vec<serde::de::IgnoredAny>>`; the result is the name
/// `spec_json_is_array` of the text.
#[verifier::external_body]
fn json_is_array(text: &str) -> (r: bool)
    ensures
        r == spec_json_is_array(text@),
{
    serde_json::from_str::<Vec<serde::de::IgnoredAny>>(text).is_ok()
}

/// Calls `serde_json::from_str::<Vec<String>>`; the result is the name `spec_json_string_array`
/// of the text.
#[verifier::external_body]
fn json_string_array(text: &str) -> (r: Option<Vec<String>>)
    ensures
        match r {
            Some(v) => spec_json_string_array(text@) == Some(strings_view(v@)),
            None => spec_json_string_array(text@) == Option::<Seq<Seq<char>>>::None,
        },
{
    serde_json::from_str::<Vec<String>>(text).ok()
}

/// A course code as the prerequisite table keys it: trimmed, then uppercased.
pub open spec fn normalized_code(code: Seq<char>) -> Seq<char> {
    spec_to_uppercase(trim(code))
}

/// The normalized codes of the first `n` entries of `codes`, without empty ones and without
/// repeats (the first occurrence stays).
pub open spec fn normalize_codes(codes: Seq<Seq<char>>, n: int) -> Seq<Seq<char>>
    decreases n,
{
    if n <= 0 {
        seq![]
    } else {
        let prev = normalize_codes(codes, n - 1);
        let c = normalized_code(codes[n - 1]);
        if c.len() == 0 || prev.contains(c) {
            prev
        } else {
            prev.push(c)
        }
    }
}

/// The clauses of the first `n` JSON items, or the first error among them.
pub open spec fn clauses_from_items(items: Seq<Seq<char>>, n: int) -> Result<Seq<Seq<Seq<char>>>, Seq<char>>
    decreases n,
{
    if n <= 0 {
        Ok(seq![])
    } else {
        match clauses_from_items(items, n - 1) {
            Err(e) => Err(e),
            Ok(prev) => if !spec_json_is_array(items[n - 1]) {
                Err("prereq_groups clause must be array"@)
            } else {
                match spec_json_string_array(items[n - 1]) {
                    None => Err("prereq_groups code must be string"@),
                    Some(codes) => {
                        let g = normalize_codes(codes, codes.len() as int);
                        if g.len() == 0 {
                            Ok(prev)
                        } else {
                            Ok(prev.push(g))
                        }
                    },
                }
            },
        }
    }
}

/// The prerequisite clauses that a `prereq_groups` cell stands for: a JSON array of OR-groups,
/// each an array of course codes; codes are trimmed and uppercased, empty codes and repeats
/// within a group dropped, and empty groups dropped. A blank cell or `[]` has none.
pub open spec fn spec_normalize_clauses(raw: Seq<char>) -> Result<Seq<Seq<Seq<char>>>, Seq<char>> {
    let t = trim(raw);
    if t.len() == 0 || t == "[]"@ {
        Ok(seq![])
    } else {
        match spec_json_error(t) {
            Some(e) => Err("prereq_groups json: "@ + e),
            None => match spec_json_array_items(t) {
                None => Err("prereq_groups must be a JSON array"@),
                Some(items) => clauses_from_items(items, items.len() as int),
            },
        }
    }
}

/// `x` followed by `y` when both parsed; otherwise the first error.
pub open spec fn concat_clauses(
    x: Result<Seq<Seq<Seq<char>>>, Seq<char>>,
    y: Result<Seq<Seq<Seq<char>>>, Seq<char>>,
) -> Result<Seq<Seq<Seq<char>>>, Seq<char>> {
    match x {
        Err(e) => Err(e),
        Ok(a) => match y {
            Err(e) => Err(e),
            Ok(b) => Ok(a + b),
        },
    }
}

/// Whether the JSON item `t` is a group of course codes that normalizes to no code at all.
pub open spec fn is_empty_group(t: Seq<char>) -> bool {
    &&& spec_json_is_array(t)
    &&& spec_json_string_array(t) is Some
    &&& normalize_codes(spec_json_string_array(t)->0, (spec_json_string_array(t)->0).len() as int).len() == 0
}

proof fn lemma_clauses_same_prefix(x: Seq<Seq<char>>, y: Seq<Seq<char>>, n: int)
    requires
        0 <= n <= x.len(),
        n <= y.len(),
        forall|i: int| 0 <= i < n ==> x[i] == y[i],
    ensures
        clauses_from_items(x, n) == clauses_from_items(y, n),
    decreases n,
{
    if n > 0 {
        lemma_clauses_same_prefix(x, y, n - 1);
    }
}

proof fn lemma_clauses_concat_upto(a: Seq<Seq<char>>, b: Seq<Seq<char>>, m: int)
    requires
        0 <= m <= b.len(),
    ensures
        clauses_from_items(a + b, a.len() + m) == concat_clauses(
            clauses_from_items(a, a.len() as int),
            clauses_from_items(b, m),
        ),
    decreases m,
{
    if m == 0 {
        lemma_clauses_same_prefix(a + b, a, a.len() as int);
        match clauses_from_items(a, a.len() as int) {
            Ok(x) => {
                assert(x + Seq::<Seq<Seq<char>>>::empty() =~= x);
            },
            Err(_) => {},
        }
    } else {
        lemma_clauses_concat_upto(a, b, m - 1);
        assert((a + b)[a.len() + m - 1] == b[m - 1]);
        match clauses_from_items(a, a.len() as int) {
            Ok(x) => match clauses_from_items(b, m - 1) {
                Ok(y) => {
                    match spec_json_string_array(b[m - 1]) {
                        Some(codes) => {
                            let g = normalize_codes(codes, codes.len() as int);
                            assert(x + y.push(g) =~= (x + y).push(g));
                        },
                        None => {},
                    }
                },
                Err(_) => {},
            },
            Err(_) => {},
        }
    }
}

/// Reading the items `a` then `b` gives the clauses of `a` followed by those of `b`, or the
/// first error.
pub proof fn lemma_clauses_concat(a: Seq<Seq<char>>, b: Seq<Seq<char>>)
    ensures
        clauses_from_items(a + b, (a + b).len() as int) == concat_clauses(
            clauses_from_items(a, a.len() as int),
            clauses_from_items(b, b.len() as int),
        ),
{
    lemma_clauses_concat_upto(a, b, b.len() as int);
}

/// A group that normalizes to no code changes nothing: reading stops neither before nor after
/// it, and the groups around it are read as if it were not there.
pub proof fn lemma_empty_group_skipped(a: Seq<Seq<char>>, t: Seq<char>, b: Seq<Seq<char>>)
    requires
        is_empty_group(t),
    ensures
        clauses_from_items(a + seq![t] + b, (a + seq![t] + b).len() as int) == clauses_from_items(
            a + b,
            (a + b).len() as int,
        ),
{
    lemma_clauses_concat(a + seq![t], b);
    lemma_clauses_concat(a, seq![t]);
    lemma_clauses_concat(a, b);
    let one = clauses_from_items(seq![t], 1);
    assert(clauses_from_items(seq![t], 0) == Ok::<Seq<Seq<Seq<char>>>, Seq<char>>(seq![]));
    assert(seq![t][0] == t);
    assert(one == Ok::<Seq<Seq<Seq<char>>>, Seq<char>>(seq![]));
    match clauses_from_items(a, a.len() as int) {
        Ok(x) => {
            assert(x + Seq::<Seq<Seq<char>>>::empty() =~= x);
        },
        Err(_) => {},
    }
}

/// A group that normalizes to some codes is kept, after the groups before it: reading `a`, the
/// item `t`, then `b` gives the clauses of `a`, then the group of `t`, then those of `b`.
pub proof fn lemma_nonempty_group_kept(a: Seq<Seq<char>>, t: Seq<char>, b: Seq<Seq<char>>)
    requires
        spec_json_is_array(t),
        spec_json_string_array(t) is Some,
        normalize_codes(spec_json_string_array(t)->0, (spec_json_string_array(t)->0).len() as int).len() > 0,
    ensures
        clauses_from_items(a + seq![t] + b, (a + seq![t] + b).len() as int) == concat_clauses(
            concat_clauses(
                clauses_from_items(a, a.len() as int),
                Ok(seq![normalize_codes(spec_json_string_array(t)->0, (spec_json_string_array(t)->0).len() as int)]),
            ),
            clauses_from_items(b, b.len() as int),
        ),
{
    lemma_clauses_concat(a + seq![t], b);
    lemma_clauses_concat(a, seq![t]);
    assert(clauses_from_items(seq![t], 0) == Ok::<Seq<Seq<Seq<char>>>, Seq<char>>(seq![]));
    assert(seq![t][0] == t);
    let g = normalize_codes(spec_json_string_array(t)->0, (spec_json_string_array(t)->0).len() as int);
    assert(Seq::<Seq<Seq<char>>>::empty().push(g) =~= seq![g]);
}

/// `r` is the result `expected`, strings taken by their views.
pub open spec fn clauses_match(
    r: Result<Vec<Vec<String>>, String>,
    expected: Result<Seq<Seq<Seq<char>>>, Seq<char>>,
) -> bool {
    match r {
        Ok(v) => expected == Ok::<Seq<Seq<Seq<char>>>, Seq<char>>(groups_view(v@)),
        Err(e) => expected == Err::<Seq<Seq<Seq<char>>>, Seq<char>>(e@),
    }
}

proof fn lemma_clauses_error_sticks(items: Seq<Seq<char>>, i: int, n: int)
    requires
        0 <= i <= n,
        clauses_from_items(items, i) is Err,
    ensures
        clauses_from_items(items, n) == clauses_from_items(items, i),
    decreases n - i,
{
    if n > i {
        lemma_clauses_error_sticks(items, i, n - 1);
    }
}

/// The normalized codes of `codes`, as `normalize_codes` describes them.
fn normalize_code_list(codes: &Vec<String>) -> (r: Vec<String>)
    ensures
        strings_view(r@) == normalize_codes(strings_view(codes@), codes@.len() as int),
{
    let ghost cv = strings_view(codes@);
    let mut g: Vec<String> = Vec::new();
    let mut i: usize = 0;
    while i < codes.len()
        invariant
            i <= codes@.len(),
            cv == strings_view(codes@),
            strings_view(g@) == normalize_codes(cv, i as int),
        decreases codes@.len() - i,
    {
        let t = trim_string(codes[i].as_str());
        let c = to_uppercase(t.as_str());
        proof {
            assert(cv[i as int] == codes@[i as int]@);
        }
        if !c.as_str().is_empty() {
            let mut k: usize = 0;
            while k < g.len() && g[k] != c
                invariant
                    k <= g@.len(),
                    forall|q: int| 0 <= q < k ==> (#[trigger] g@[q])@ != c@,
                decreases g@.len() - k,
            {
                k = k + 1;
            }
            proof {
                let gv = strings_view(g@);
                if k < g.len() {
                    assert(gv[k as int] == c@);
                    assert(gv.contains(c@));
                } else {
                    assert(!gv.contains(c@)) by {
                        if gv.contains(c@) {
                            let q = choose|q: int| 0 <= q < gv.len() && gv[q] == c@;
                            assert(g@[q]@ == c@);
                        }
                    }
                }
            }
            if k == g.len() {
                let ghost before = g@;
                g.push(c);
                proof {
                    assert(strings_view(g@) =~= strings_view(before).push(c@));
                }
            }
        }
        i = i + 1;
    }
    g
}

/// Parses a `prereq_groups` cell: a JSON array of OR-groups of course codes. Codes are trimmed
/// and uppercased; empty codes, repeated codes within a group and empty groups are dropped.
pub fn normalize_prereq_clauses(raw: &str) -> (r: Result<Vec<Vec<String>>, String>)
    ensures
        clauses_match(r, spec_normalize_clauses(raw@)),
{
    let t = trim_string(raw);
    let empty_list = String::from_str("[]");
    if t.as_str().is_empty() || t == empty_list {
        let out: Vec<Vec<String>> = Vec::new();
        proof {
            assert(groups_view(out@) =~= seq![]);
        }
        return Ok(out);
    }
    match json_error(t.as_str()) {
        Some(e) => {
            let mut m = String::from_str("prereq_groups json: ");
            m.append(e.as_str());
            return Err(m);
        },
        None => {},
    }
    let items = match json_array_items(t.as_str()) {
        Some(v) => v,
        None => {
            return Err(String::from_str("prereq_groups must be a JSON array"));
        },
    };
    let ghost iv = strings_view(items@);
    let mut out: Vec<Vec<String>> = Vec::new();
    let mut i: usize = 0;
    proof {
        assert(groups_view(out@) =~= seq![]);
    }
    while i < items.len()
        invariant
            i <= items@.len(),
            iv == strings_view(items@),
            spec_normalize_clauses(raw@) == clauses_from_items(iv, iv.len() as int),
            clauses_from_items(iv, i as int) == Ok::<Seq<Seq<Seq<char>>>, Seq<char>>(groups_view(out@)),
        decreases items@.len() - i,
    {
        proof {
            assert(iv[i as int] == items@[i as int]@);
        }
        if !json_is_array(items[i].as_str()) {
            proof {
                lemma_clauses_error_sticks(iv, i + 1, iv.len() as int);
            }
            return Err(String::from_str("prereq_groups clause must be array"));
        }
        let codes = match json_string_array(items[i].as_str()) {
            Some(c) => c,
            None => {
                proof {
                    lemma_clauses_error_sticks(iv, i + 1, iv.len() as int);
                }
                return Err(String::from_str("prereq_groups code must be string"));
            },
        };
        let g = normalize_code_list(&codes);
        if g.len() > 0 {
            let ghost before = out@;
            out.push(g);
            proof {
                assert(groups_view(out@) =~= groups_view(before).push(strings_view(g@)));
            }
        }
        i = i + 1;
    }
    Ok(out)
}

/// One row of the courses table: a course code and its `prereq_groups` JSON cell.
#[derive(Debug, Clone)]
pub struct CourseRow {
    pub course_code: String,
    pub prereq_groups: String,
}

/// The prerequisite table of the first `n` rows: rows whose normalized code is empty are
/// skipped, a later row replaces an earlier one with the same code, and the first row whose
/// cell does not parse gives the error.
pub open spec fn spec_prereq_table(rows: Seq<CourseRow>, n: int) -> Result<
    Map<Seq<char>, Seq<Seq<Seq<char>>>>,
    Seq<char>,
>
    decreases n,
{
    if n <= 0 {
        Ok(Map::empty())
    } else {
        match spec_prereq_table(rows, n - 1) {
            Err(e) => Err(e),
            Ok(m) => {
                let code = normalized_code(rows[n - 1].course_code@);
                if code.len() == 0 {
                    Ok(m)
                } else {
                    match spec_normalize_clauses(rows[n - 1].prereq_groups@) {
                        Err(e) => Err(e),
                        Ok(c) => Ok(m.insert(code, c)),
                    }
                }
            },
        }
    }
}

proof fn lemma_table_error_sticks(rows: Seq<CourseRow>, i: int, n: int)
    requires
        0 <= i <= n,
        spec_prereq_table(rows, i) is Err,
    ensures
        spec_prereq_table(rows, n) == spec_prereq_table(rows, i),
    decreases n - i,
{
    if n > i {
        lemma_table_error_sticks(rows, i, n - 1);
    }
}

/// Builds the prerequisite table from course rows: codes are trimmed and uppercased, rows with
/// an empty code are skipped, later rows replace earlier ones, and the first cell that does not
/// parse is the error.
pub fn build_prereq_map(rows: &[CourseRow]) -> (r: Result<PrereqMap, String>)
    ensures
        match r {
            Ok(m) => m.wf() && spec_prereq_table(rows@, rows@.len() as int) == Ok::<
                Map<Seq<char>, Seq<Seq<Seq<char>>>>,
                Seq<char>,
            >(m@),
            Err(e) => spec_prereq_table(rows@, rows@.len() as int) == Err::<
                Map<Seq<char>, Seq<Seq<Seq<char>>>>,
                Seq<char>,
            >(e@),
        },
{
    let mut out = PrereqMap::new();
    let mut i: usize = 0;
    while i < rows.len()
        invariant
            i <= rows@.len(),
            out.wf(),
            spec_prereq_table(rows@, i as int) == Ok::<Map<Seq<char>, Seq<Seq<Seq<char>>>>, Seq<char>>(
                out@,
            ),
        decreases rows@.len() - i,
    {
        let t = trim_string(rows[i].course_code.as_str());
        let code = to_uppercase(t.as_str());
        if !code.as_str().is_empty() {
            match normalize_prereq_clauses(rows[i].prereq_groups.as_str()) {
                Ok(c) => {
                    out.insert(code, c);
                },
                Err(e) => {
                    proof {
                        lemma_table_error_sticks(rows@, i + 1, rows@.len() as int);
                    }
                    return Err(e);
                },
            }
        }
        i = i + 1;
    }
    Ok(out)
}

/// The courses file that goes with a sections file name: `sections_{term}.csv` gives
/// `courses_{term}.csv`; any other name gives none.
pub open spec fn spec_companion_name(name: Seq<char>) -> Option<Seq<char>> {
    let p = "sections_"@;
    let x = ".csv"@;
    if name.len() >= p.len() && name.take(p.len() as int) == p && name.len() - p.len() >= x.len()
        && name.skip(name.len() - x.len()) == x {
        Some("courses_"@ + name.subrange(p.len() as int, name.len() - x.len()) + x)
    } else {
        None
    }
}

/// Whether `v[at..]` starts with all of `w`.
fn matches_at(v: &Vec<char>, at: usize, w: &Vec<char>) -> (r: bool)
    requires
        at <= v@.len(),
    ensures
        r == (v@.len() - at >= w@.len() && v@.subrange(at as int, at + w@.len()) == w@),
{
    if v.len() - at < w.len() {
        return false;
    }
    let mut k: usize = 0;
    while k < w.len()
        invariant
            k <= w@.len(),
            at + w@.len() <= v@.len() <= usize::MAX,
            forall|q: int| 0 <= q < k ==> v@[at + q] == w@[q],
        decreases w@.len() - k,
    {
        if v[at + k] != w[k] {
            proof {
                assert(v@.subrange(at as int, at + w@.len())[k as int] != w@[k as int]);
            }
            return false;
        }
        k = k + 1;
    }
    proof {
        assert(v@.subrange(at as int, at + w@.len()) =~= w@);
    }
    true
}

/// The courses file name that goes with the sections file name `name`
/// (`sections_{term}.csv` gives `courses_{term}.csv`).
pub fn companion_courses_name(name: &str) -> (r: Option<String>)
    ensures
        match r {
            Some(s) => spec_companion_name(name@) == Some(s@),
            None => spec_companion_name(name@) == Option::<Seq<char>>::None,
        },
{
    let v = chars_of(name);
    let p = chars_of("sections_");
    let x = chars_of(".csv");
    if !matches_at(&v, 0, &p) {
        proof {
            assert(v@.subrange(0, p@.len() as int) =~= v@.take(p@.len() as int));
        }
        return None;
    }
    if v.len() - p.len() < x.len() {
        return None;
    }
    let tail = v.len() - x.len();
    if !matches_at(&v, tail, &x) {
        proof {
            assert(v@.subrange(0, p@.len() as int) =~= v@.take(p@.len() as int));
            assert(v@.subrange(tail as int, tail + x@.len()) =~= v@.skip(tail as int));
        }
        return None;
    }
    let mut out = String::from_str("courses_");
    let term = string_from_chars(&v, p.len(), tail);
    out.append(term.as_str());
    out.append(".csv");
    proof {
        assert(v@.subrange(0, p@.len() as int) =~= v@.take(p@.len() as int));
        assert(v@.subrange(tail as int, tail + x@.len()) =~= v@.skip(tail as int));
    }
    Some(out)
}

} // verus!
