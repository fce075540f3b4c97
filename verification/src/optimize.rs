//! The integer decisions of an optimization request: limits from request parameters, and the
//! conflict-free cut of ranked candidates.
use vstd::prelude::*;
use crate::conflicts::{detect_conflicts, spec_conflicts, MeetingRecord};
use crate::prereqs::strings_view;
use crate::text::push_char;

verus! {

/// Search limits resolved from the request parameters.
#[derive(Debug, Clone)]
pub struct SearchLimits {
    /// Sections per schedule.
    pub k: usize,
    /// Candidates to generate at most.
    pub max_candidates: usize,
    /// Sections of one subject per schedule at most.
    pub max_per_subject: usize,
    /// Earliest start minute (`0` = no filter).
    pub earliest_start: i32,
    /// Options to return at most.
    pub max_results: usize,
}

/// `x` clamped to `lo ..= hi`.
pub open spec fn clamp_int(x: int, lo: int, hi: int) -> int {
    if x < lo {
        lo
    } else if x > hi {
        hi
    } else {
        x
    }
}

/// The limits a request asks for: `k` defaults to 4 and is clamped to `2..=6`;
/// `max_candidates` defaults to 2000 when not positive; `max_per_subject` defaults to 1 and is
/// clamped to `1..=3`; a negative earliest start counts as 0; `max_results` defaults to 10 and is
/// clamped to `1..=25`.
pub fn resolve_limits(k: i32, max_candidates: i32, max_per_subject: i32, earliest_start_minutes: i32, max_results: i32) -> (r: SearchLimits)
    ensures
        r.k == if k == 0 {
            4
        } else {
            clamp_int(k as int, 2, 6)
        },
        r.max_candidates == if max_candidates > 0 {
            max_candidates as int
        } else {
            2000
        },
        r.max_per_subject == if max_per_subject == 0 {
            1
        } else {
            clamp_int(max_per_subject as int, 1, 3)
        },
        r.earliest_start == if earliest_start_minutes < 0 {
            0
        } else {
            earliest_start_minutes
        },
        r.max_results == if max_results == 0 {
            10
        } else {
            clamp_int(max_results as int, 1, 25)
        },
{
    let kk: usize = if k == 0 {
        4
    } else if k < 2 {
        2
    } else if k > 6 {
        6
    } else {
        k as usize
    };
    let mc: usize = if max_candidates > 0 {
        max_candidates as usize
    } else {
        2000
    };
    let mps: usize = if max_per_subject == 0 {
        1
    } else if max_per_subject < 1 {
        1
    } else if max_per_subject > 3 {
        3
    } else {
        max_per_subject as usize
    };
    let earliest: i32 = if earliest_start_minutes < 0 {
        0
    } else {
        earliest_start_minutes
    };
    let mr: usize = if max_results == 0 {
        10
    } else if max_results < 1 {
        1
    } else if max_results > 25 {
        25
    } else {
        max_results as usize
    };
    SearchLimits { k: kk, max_candidates: mc, max_per_subject: mps, earliest_start: earliest, max_results: mr }
}

/// Positions of the candidates among the first `n` that have no conflicts, in order; with a
/// `limit`, the cut stops once that many are kept.
pub open spec fn spec_conflict_free(
    meetings: Seq<MeetingRecord>,
    candidates: Seq<Vec<String>>,
    limit: Option<usize>,
    n: int,
) -> Seq<usize>
    decreases n,
{
    if n <= 0 {
        seq![]
    } else {
        let prev = spec_conflict_free(meetings, candidates, limit, n - 1);
        let stopped = match limit {
            Some(m) => prev.len() >= m,
            None => false,
        };
        if !stopped && spec_conflicts(meetings, candidates[n - 1]@).len() == 0 {
            prev.push((n - 1) as usize)
        } else {
            prev
        }
    }
}

/// The positions of the candidates (in their ranked order) whose sections have no pairwise
/// meeting conflict; with `Some(limit)`, only the first `limit` of them.
pub fn conflict_free_candidates(meetings: &[MeetingRecord], candidates: &Vec<Vec<String>>, limit: Option<usize>) -> (r: Vec<usize>)
    ensures
        r@ == spec_conflict_free(meetings@, candidates@, limit, candidates@.len() as int),
{
    let mut out: Vec<usize> = Vec::new();
    let mut i: usize = 0;
    while i < candidates.len()
        invariant
            i <= candidates@.len(),
            out@ == spec_conflict_free(meetings@, candidates@, limit, i as int),
        decreases candidates@.len() - i,
    {
        let stopped = match limit {
            Some(m) => out.len() >= m,
            None => false,
        };
        if !stopped {
            let c = detect_conflicts(meetings, candidates[i].as_slice());
            proof {
                assert(c@.len() == spec_conflicts(meetings@, candidates@[i as int]@).len()) by {
                    assert(c@.map_values(|x: crate::conflicts::ConflictPair| x@).len() == c@.len());
                }
            }
            if c.len() == 0 {
                out.push(i);
            }
        }
        i = i + 1;
    }
    out
}


/// The digit character of `d` (`d < 10`).
pub open spec fn digit_char(d: int) -> char {
    "0123456789"@[d]
}

/// The decimal digits of `n`, most significant first (`"0"` for zero).
pub open spec fn decimal_digits(n: nat) -> Seq<char>
    decreases n,
{
    if n < 10 {
        seq![digit_char(n as int)]
    } else {
        decimal_digits(n / 10).push(digit_char((n % 10) as int))
    }
}

/// `s` with `'0'`s in front to make it at least `width` characters long.
pub open spec fn zero_pad(s: Seq<char>, width: nat) -> Seq<char> {
    if s.len() >= width {
        s
    } else {
        Seq::new((width - s.len()) as nat, |i: int| '0') + s
    }
}

/// The id of the `n`-th option: `"sched-"` and `n` in at least three decimal digits.
pub open spec fn spec_schedule_id(n: nat) -> Seq<char> {
    "sched-"@ + zero_pad(decimal_digits(n), 3)
}

proof fn lemma_digits_len(n: nat)
    ensures
        decimal_digits(n).len() >= 1,
        n < 10 ==> decimal_digits(n).len() == 1,
        10 <= n < 100 ==> decimal_digits(n).len() == 2,
        n >= 100 ==> decimal_digits(n).len() >= 3,
    decreases n,
{
    if n >= 10 {
        lemma_digits_len(n / 10);
    }
}

/// Appends the decimal digits of `n` to `s`.
fn push_decimal(s: &mut String, n: usize)
    ensures
        final(s)@ == old(s)@ + decimal_digits(n as nat),
    decreases n,
{
    let digits = "0123456789";
    proof {
        reveal_strlit("0123456789");
    }
    if n >= 10 {
        push_decimal(s, n / 10);
        let c = digits.get_char(n % 10);
        push_char(s, c);
        proof {
            assert(s@ =~= old(s)@ + decimal_digits(n as nat));
        }
    } else {
        let c = digits.get_char(n);
        push_char(s, c);
        proof {
            assert(s@ =~= old(s)@ + decimal_digits(n as nat));
        }
    }
}

/// The id of the `n`-th option (`"sched-001"` for 1; more digits once `n` reaches 1000).
pub fn schedule_id(n: usize) -> (r: String)
    ensures
        r@ == spec_schedule_id(n as nat),
{
    let mut r = String::from_str("sched-");
    proof {
        reveal_strlit("sched-");
        lemma_digits_len(n as nat);
    }
    if n < 10 {
        push_char(&mut r, '0');
        push_char(&mut r, '0');
    } else if n < 100 {
        push_char(&mut r, '0');
    }
    push_decimal(&mut r, n);
    proof {
        let d = decimal_digits(n as nat);
        if n < 10 {
            assert(Seq::new((3 - d.len()) as nat, |i: int| '0') =~= seq!['0', '0']);
            assert(r@ =~= "sched-"@ + (Seq::new((3 - d.len()) as nat, |i: int| '0') + d));
        } else if n < 100 {
            assert(Seq::new((3 - d.len()) as nat, |i: int| '0') =~= seq!['0']);
            assert(r@ =~= "sched-"@ + (Seq::new((3 - d.len()) as nat, |i: int| '0') + d));
        } else {
            assert(r@ =~= "sched-"@ + d);
        }
    }
    r
}

} // verus!
