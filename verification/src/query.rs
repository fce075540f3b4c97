//! URL query strings: `?key=value&key2=value2`.
use vstd::prelude::*;
use crate::search::StrMap;
use crate::text::{chars_of, string_from_chars, trim, trim_bounds};
use crate::prereqs::strings_view;

verus! {

/// Index of the first `c` in `s`, or `s.len()` when there is none.
pub open spec fn index_of_char(s: Seq<char>, c: char) -> int
    decreases s.len(),
{
    if s.len() == 0 {
        0
    } else if s[0] == c {
        0
    } else {
        1 + index_of_char(s.drop_first(), c)
    }
}

/// The first `c` is at a position within `s`, or at its end.
pub proof fn lemma_index_bounds(s: Seq<char>, c: char)
    ensures
        0 <= index_of_char(s, c) <= s.len(),
    decreases s.len(),
{
    if s.len() > 0 && s[0] != c {
        lemma_index_bounds(s.drop_first(), c);
    }
}

proof fn lemma_index_of_char(s: Seq<char>, c: char, i: int)
    requires
        0 <= i <= s.len(),
        forall|k: int| 0 <= k < i ==> s[k] != c,
        i == s.len() || s[i] == c,
    ensures
        index_of_char(s, c) == i,
    decreases i,
{
    if i > 0 {
        lemma_index_of_char(s.drop_first(), c, i - 1);
    }
}

/// The pieces of `s` between occurrences of `c` (`str::split`): at least one, possibly empty.
pub open spec fn split_on(s: Seq<char>, c: char) -> Seq<Seq<char>>
    decreases s.len(),
{
    let i = index_of_char(s, c);
    if i >= s.len() {
        seq![s]
    } else {
        proof {
            lemma_index_bounds(s, c);
        }
        seq![s.take(i)] + split_on(s.skip(i + 1), c)
    }
}

proof fn lemma_split_nonempty(s: Seq<char>, c: char)
    ensures
        split_on(s, c).len() >= 1,
        index_of_char(s, c) < s.len() ==> split_on(s, c).len() >= 2,
    decreases s.len(),
{
    lemma_index_bounds(s, c);
    let i = index_of_char(s, c);
    if i < s.len() {
        lemma_split_nonempty(s.skip(i + 1), c);
    }
}

/// The key and value of one query entry: split at the first `=`; without one, the whole entry
/// is the key and the value is empty.
pub open spec fn entry_pair(e: Seq<char>) -> (Seq<char>, Seq<char>) {
    let i = index_of_char(e, '=');
    if i >= e.len() {
        (e, seq![])
    } else {
        (e.take(i), e.skip(i + 1))
    }
}

/// The map of the first `n` entries: empty entries are skipped, a later key replaces an earlier
/// one.
pub open spec fn entries_map(entries: Seq<Seq<char>>, n: int) -> Map<Seq<char>, Seq<char>>
    decreases n,
{
    if n <= 0 {
        Map::empty()
    } else {
        let m = entries_map(entries, n - 1);
        let e = entries[n - 1];
        if e.len() == 0 {
            m
        } else {
            m.insert(entry_pair(e).0, entry_pair(e).1)
        }
    }
}

/// The parameters of the query part of `url` (after the first `?`); none without a `?`.
pub open spec fn spec_query(url: Seq<char>) -> Map<Seq<char>, Seq<char>> {
    let q = index_of_char(url, '?');
    if q >= url.len() {
        Map::empty()
    } else {
        let entries = split_on(url.skip(q + 1), '&');
        entries_map(entries, entries.len() as int)
    }
}

/// The values of a table of strings.
pub open spec fn string_values(m: Map<Seq<char>, String>) -> Map<Seq<char>, Seq<char>> {
    Map::new(|k: Seq<char>| m.contains_key(k), |k: Seq<char>| m[k]@)
}

/// First index at or after `lo` and before `hi` holding `c`, or `hi`.
fn find_char(v: &Vec<char>, lo: usize, hi: usize, c: char) -> (r: usize)
    requires
        lo <= hi <= v@.len(),
    ensures
        lo <= r <= hi,
        index_of_char(v@.subrange(lo as int, hi as int), c) == r - lo,
{
    let mut i = lo;
    while i < hi && v[i] != c
        invariant
            lo <= i <= hi <= v@.len(),
            forall|k: int| lo <= k < i ==> v@[k] != c,
        decreases hi - i,
    {
        i = i + 1;
    }
    proof {
        lemma_index_of_char(v@.subrange(lo as int, hi as int), c, i - lo);
    }
    i
}

/// The parameters of `url`'s query string (after the first `?`), split at `&`; each entry splits
/// at its first `=` (no `=`: empty value); empty entries are skipped and a repeated key keeps its
/// last value. No `?` gives no parameters.
pub fn parse_query(url: &str) -> (r: StrMap<String>)
    ensures
        r.wf(),
        string_values(r@) == spec_query(url@),
{
    let v = chars_of(url);
    let n = v.len();
    let mut out: StrMap<String> = StrMap::new();
    let q = find_char(&v, 0, n, '?');
    proof {
        assert(v@.subrange(0, n as int) =~= v@);
    }
    if q == n {
        proof {
            assert(string_values(out@) =~= Map::empty());
        }
        return out;
    }
    let ghost rest = v@.skip(q + 1);
    let ghost entries = split_on(rest, '&');
    let mut pos = q + 1;
    let ghost mut done: int = 0;
    proof {
        assert(v@.subrange(pos as int, n as int) =~= rest);
        assert(string_values(out@) =~= entries_map(entries, 0));
    }
    loop
        invariant
            q < pos <= n,
            n == v@.len(),
            v@ == url@,
            index_of_char(v@, '?') == q,
            out.wf(),
            rest == v@.skip(q + 1),
            entries == split_on(rest, '&'),
            0 <= done < entries.len(),
            split_on(v@.subrange(pos as int, n as int), '&') == entries.skip(done),
            string_values(out@) == entries_map(entries, done),
        decreases n - pos,
    {
        let e = find_char(&v, pos, n, '&');
        let ghost piece = v@.subrange(pos as int, e as int);
        proof {
            let s = v@.subrange(pos as int, n as int);
            assert(s.take(e - pos) =~= piece);
            assert(entries.skip(done)[0] == piece);
            assert(entries[done] == piece);
        }
        if e > pos {
            let eq = find_char(&v, pos, e, '=');
            let key = string_from_chars(&v, pos, eq);
            let value = if eq < e {
                string_from_chars(&v, eq + 1, e)
            } else {
                String::new()
            };
            proof {
                if eq < e {
                    assert(key@ =~= entry_pair(piece).0);
                    assert(value@ =~= entry_pair(piece).1);
                } else {
                    assert(key@ =~= entry_pair(piece).0);
                    assert(value@ =~= entry_pair(piece).1);
                }
            }
            let ghost kv = key@;
            let ghost vv = value@;
            let ghost before = out@;
            out.put(key, value);
            proof {
                assert(string_values(out@) =~= string_values(before).insert(kv, vv));
            }
        }
        proof {
            assert(string_values(out@) == entries_map(entries, done + 1));
        }
        if e == n {
            proof {
                let s = v@.subrange(pos as int, n as int);
                assert(split_on(s, '&') == seq![s]);
                assert(entries.skip(done).len() == 1);
                assert(done + 1 == entries.len());
                assert(spec_query(url@) == entries_map(entries, entries.len() as int));
            }
            return out;
        }
        proof {
            let s = v@.subrange(pos as int, n as int);
            lemma_split_nonempty(s, '&');
            assert(s.skip(e - pos + 1) =~= v@.subrange(e + 1, n as int));
            assert(entries.skip(done + 1) =~= entries.skip(done).drop_first());
            done = done + 1;
        }
        pos = e + 1;
    }
}


/// The items of a comma-separated list: the pieces between commas, trimmed, empty ones dropped.
pub open spec fn spec_section_list(s: Seq<char>) -> Seq<Seq<char>>
    decreases s.len(),
{
    let i = index_of_char(s, ',');
    let piece = trim(s.take(i));
    let rest = if i >= s.len() {
        Seq::<Seq<char>>::empty()
    } else {
        proof {
            lemma_index_bounds(s, ',');
        }
        spec_section_list(s.skip(i + 1))
    };
    if piece.len() == 0 {
        rest
    } else {
        seq![piece] + rest
    }
}

/// The section ids of a `sections=` parameter: split at `,`, each trimmed, empty ones dropped.
pub fn section_list(value: &str) -> (r: Vec<String>)
    ensures
        strings_view(r@) == spec_section_list(value@),
{
    let v = chars_of(value);
    let n = v.len();
    let mut out: Vec<String> = Vec::new();
    let mut pos: usize = 0;
    proof {
        assert(v@.subrange(0, n as int) =~= v@);
        assert(strings_view(out@) =~= Seq::<Seq<char>>::empty());
    }
    loop
        invariant
            pos <= n,
            n == v@.len(),
            v@ == value@,
            strings_view(out@) + spec_section_list(v@.subrange(pos as int, n as int))
                == spec_section_list(value@),
        decreases n - pos,
    {
        let e = find_char(&v, pos, n, ',');
        let (a, b) = trim_bounds(&v, pos, e);
        let ghost s = v@.subrange(pos as int, n as int);
        let ghost before = strings_view(out@);
        proof {
            assert(s.take(e - pos) =~= v@.subrange(pos as int, e as int));
        }
        if a < b {
            let item = string_from_chars(&v, a, b);
            out.push(item);
            proof {
                assert(strings_view(out@) =~= before.push(trim(s.take(e - pos))));
            }
        }
        if e == n {
            proof {
                assert(spec_section_list(s) == (if trim(s.take(e - pos)).len() == 0 {
                    Seq::<Seq<char>>::empty()
                } else {
                    seq![trim(s.take(e - pos))]
                }));
                assert(strings_view(out@) =~= before + spec_section_list(s));
            }
            return out;
        }
        proof {
            let rest = v@.subrange(e + 1, n as int);
            assert(s.skip(e - pos + 1) =~= rest);
            if trim(s.take(e - pos)).len() == 0 {
                assert(strings_view(out@) =~= before);
            } else {
                assert(strings_view(out@) + spec_section_list(rest) =~= before + spec_section_list(s));
            }
        }
        pos = e + 1;
    }
}


/// The message for a conflicts request without any section.
pub open spec fn missing_sections_message() -> Seq<char> {
    "missing required query param: sections=COMP112-01,COMP211-01"@
}

/// The meetings file of a conflicts request: its `csv_path` parameter, else `default_csv`.
pub open spec fn spec_conflicts_csv(url: Seq<char>, default_csv: Seq<char>) -> Seq<char> {
    let q = spec_query(url);
    if q.contains_key("csv_path"@) {
        q["csv_path"@]
    } else {
        default_csv
    }
}

/// The sections of a conflicts request: the items of its `sections` parameter.
pub open spec fn spec_conflicts_sections(url: Seq<char>) -> Seq<Seq<char>> {
    let q = spec_query(url);
    if q.contains_key("sections"@) {
        spec_section_list(q["sections"@])
    } else {
        Seq::empty()
    }
}

/// Reads a conflicts request URL: the meetings file (`csv_path`, else `default_csv`) and the
/// selected sections (`sections`, a comma-separated list); refused when no section is named.
pub fn conflicts_query(url: &str, default_csv: &str) -> (r: Result<(String, Vec<String>), String>)
    ensures
        r is Ok <==> spec_conflicts_sections(url@).len() > 0,
        r matches Ok((csv, sections)) ==> csv@ == spec_conflicts_csv(url@, default_csv@)
            && strings_view(sections@) == spec_conflicts_sections(url@),
        r matches Err(m) ==> m@ == missing_sections_message(),
{
    let query = parse_query(url);
    let csv_key = String::from_str("csv_path");
    let sections_key = String::from_str("sections");
    proof {
        reveal_strlit("csv_path");
        reveal_strlit("sections");
    }
    let csv = match query.get(&csv_key) {
        Some(p) => p.clone(),
        None => String::from_str(default_csv),
    };
    let sections = match query.get(&sections_key) {
        Some(v) => section_list(v.as_str()),
        None => Vec::new(),
    };
    proof {
        assert(string_values(query@).contains_key("csv_path"@) == query@.contains_key("csv_path"@));
        assert(string_values(query@).contains_key("sections"@) == query@.contains_key("sections"@));
        if query@.contains_key("csv_path"@) {
            assert(string_values(query@)["csv_path"@] == query@["csv_path"@]@);
        }
        if query@.contains_key("sections"@) {
            assert(string_values(query@)["sections"@] == query@["sections"@]@);
        }
    }
    if sections.len() == 0 {
        let m = String::from_str("missing required query param: sections=COMP112-01,COMP211-01");
        proof {
            reveal_strlit("missing required query param: sections=COMP112-01,COMP211-01");
        }
        Err(m)
    } else {
        Ok((csv, sections))
    }
}

} // verus!
