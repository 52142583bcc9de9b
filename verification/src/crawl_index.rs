//! The Common Crawl index: finding the index files in the listing of a crawl, reading the
//! cluster index (SURT prefix to data file), choosing the data files that may hold URLs of some
//! domains, and selecting those URLs.

use crate::load_sequence::str_equals;
use crate::surt::{
    checked_url_has_domain_or_subdomain_of, chars_lt, chars_of, lemma_char_of_code, find_prev_and_next_elements, first_after, keys_sorted, host_in_domain,
    seq_lt, shift_last, shiftable, spec_domain_to_surt, url_host_of, value_before, domain_to_surt,
};
use aho_corasick::AhoCorasick;
use vstd::prelude::*;
use vstd::utf8::encode_utf8;

verus! {

// ---------------------------------------------------------------------------------------------
// Text helpers

/// The position of the first `c` in `s`, if any.
pub open spec fn first_index(s: Seq<char>, c: char) -> Option<int>
    decreases s.len(),
{
    if s.len() == 0 {
        None
    } else if s[0] == c {
        Some(0)
    } else {
        match first_index(s.drop_first(), c) {
            Some(i) => Some(i + 1),
            None => None,
        }
    }
}

/// `s` split at its first `c`: the part before and the part after it.
pub open spec fn spec_split_once(s: Seq<char>, c: char) -> Option<(Seq<char>, Seq<char>)> {
    match first_index(s, c) {
        Some(i) => Some((s.take(i), s.skip(i + 1))),
        None => None,
    }
}

/// The part of `s` before its first `c`, or all of `s`.
pub open spec fn before_first(s: Seq<char>, c: char) -> Seq<char> {
    match spec_split_once(s, c) {
        Some(p) => p.0,
        None => s,
    }
}

/// Where `s[i]` is the first `c` in `s` (or `i` is the length of `s` and there is none),
/// [`first_index`] finds it.
proof fn lemma_first_index(s: Seq<char>, c: char, i: int)
    requires
        0 <= i <= s.len(),
        forall|j: int| 0 <= j < i ==> s[j] != c,
        i < s.len() ==> s[i] == c,
    ensures
        first_index(s, c) == if i < s.len() {
            Some(i)
        } else {
            None::<int>
        },
    decreases i,
{
    if i > 0 {
        assert(s[0] != c);
        lemma_first_index(s.drop_first(), c, i - 1);
    }
}

/// Splits `s` at the first occurrence of `c` into the part before and the part after it.
fn split_once<'a>(s: &'a str, c: char) -> (r: Option<(&'a str, &'a str)>)
    ensures
        match r {
            Some(p) => spec_split_once(s@, c) == Some((p.0@, p.1@)),
            None => spec_split_once(s@, c) is None,
        },
{
    let chars = chars_of(s);
    let n = chars.len();
    let mut i: usize = 0;
    while i < n && chars[i] != c
        invariant
            i <= n,
            n == s@.len(),
            chars@ == s@,
            forall|j: int| 0 <= j < i ==> s@[j] != c,
        decreases n - i,
    {
        i = i + 1;
    }
    proof {
        lemma_first_index(s@, c, i as int);
    }
    if i == n {
        None
    } else {
        let before = s.substring_char(0, i);
        let after = s.substring_char(i + 1, n);
        assert(before@ =~= s@.take(i as int));
        assert(after@ =~= s@.skip(i + 1));
        Some((before, after))
    }
}

/// The number of bytes of `c` in UTF-8.
pub open spec fn utf8_len(c: char) -> int {
    if (c as u32) < 0x80 {
        1
    } else if (c as u32) < 0x800 {
        2
    } else if (c as u32) < 0x10000 {
        3
    } else {
        4
    }
}

/// The number of bytes of the first `i` characters of `s` in UTF-8.
pub open spec fn byte_offset(s: Seq<char>, i: int) -> int
    decreases i,
{
    if i <= 0 {
        0
    } else {
        byte_offset(s, i - 1) + utf8_len(s[i - 1])
    }
}

/// The characters of `s` from byte `start` to byte `end`, if both are character boundaries
/// within `s`.
pub open spec fn byte_slice(s: Seq<char>, start: int, end: int) -> Option<Seq<char>> {
    if exists|a: int, b: int|
        #![trigger byte_offset(s, a), byte_offset(s, b)]
        0 <= a <= b <= s.len() && byte_offset(s, a) == start && byte_offset(s, b) == end {
        let (a, b) = choose|a: int, b: int|
            #![trigger byte_offset(s, a), byte_offset(s, b)]
            0 <= a <= b <= s.len() && byte_offset(s, a) == start && byte_offset(s, b) == end;
        Some(s.subrange(a, b))
    } else {
        None
    }
}

/// Calls `str::get` with the byte range `start..end`, which gives the part of `s` between
/// these bytes where both are character boundaries in `s` and `start <= end`, else nothing.
#[verifier::external_body]
fn get_bytes(s: &str, start: usize, end: usize) -> (r: Option<&str>)
    ensures
        match r {
            Some(t) => byte_slice(s@, start as int, end as int) == Some(t@),
            None => byte_slice(s@, start as int, end as int) is None,
        },
{
    s.get(start..end)
}

/// Whether `c` is a decimal digit.
pub open spec fn is_digit(c: char) -> bool {
    '0' <= c <= '9'
}

/// The number the decimal digits `ds` spell.
pub open spec fn digits_value(ds: Seq<char>) -> int
    decreases ds.len(),
{
    if ds.len() == 0 {
        0
    } else {
        digits_value(ds.drop_last()) * 10 + (ds.last() as int - '0' as int)
    }
}

/// `s` without a leading `+`.
pub open spec fn unsigned_digits(s: Seq<char>) -> Seq<char> {
    if s.len() > 0 && s[0] == '+' {
        s.drop_first()
    } else {
        s
    }
}

/// Whether every character of `ds` is a decimal digit.
pub open spec fn all_digits(ds: Seq<char>) -> bool {
    forall|i: int| 0 <= i < ds.len() ==> is_digit(#[trigger] ds[i])
}

/// The `u16` that `s` spells as `str::parse` reads it: an optional `+`, then at least one
/// decimal digit, with a value below 65536.
pub open spec fn spec_parse_u16(s: Seq<char>) -> Option<u16> {
    let ds = unsigned_digits(s);
    if ds.len() == 0 || !all_digits(ds) {
        None
    } else if digits_value(ds) > u16::MAX {
        None
    } else {
        Some(digits_value(ds) as u16)
    }
}

/// Reads a `u16` as `str::parse` does: an optional `+`, then at least one decimal digit, with
/// a value below 65536.
fn parse_u16(s: &str) -> (r: Option<u16>)
    ensures
        r == spec_parse_u16(s@),
{
    let chars = chars_of(s);
    let n = chars.len();
    let start: usize = if n > 0 && chars[0] == '+' { 1 } else { 0 };
    let ghost ds = unsigned_digits(s@);
    assert(ds =~= s@.skip(start as int));
    if start == n {
        return None;
    }
    // The value read so far, or 65536 once it is larger than a `u16`.
    let mut value: u32 = 0;
    let mut i: usize = start;
    while i < n
        invariant
            start <= i <= n,
            n == s@.len(),
            chars@ == s@,
            ds == s@.skip(start as int),
            ds == unsigned_digits(s@),
            all_digits(ds.take(i - start)),
            value <= 65536,
            value < 65536 ==> value == digits_value(ds.take(i - start)),
            value == 65536 ==> digits_value(ds.take(i - start)) > u16::MAX,
        decreases n - i,
    {
        let ch = chars[i];
        let ghost pre = ds.take(i - start);
        assert(ds.take(i + 1 - start).drop_last() =~= pre);
        assert(ds.take(i + 1 - start).last() == ch);
        if !('0' <= ch && ch <= '9') {
            assert(ds[i - start] == ch);
            assert(!is_digit(ds[i - start]));
            assert(!all_digits(ds));
            return None;
        }
        let d = (ch as u32) - ('0' as u32);
        if value < 65536 {
            let next = value * 10 + d;
            value = if next > 65535 { 65536 } else { next };
        }
        i = i + 1;
        assert(all_digits(ds.take(i - start)));
    }
    assert(ds.take(n - start) =~= ds);
    if value == 65536 {
        None
    } else {
        Some(value as u16)
    }
}

/// Whether `s` ends with `suffix`.
pub open spec fn ends_with(s: Seq<char>, suffix: Seq<char>) -> bool {
    suffix.len() <= s.len() && s.skip(s.len() - suffix.len()) == suffix
}

fn chars_end_with(s: &Vec<char>, suffix: &Vec<char>) -> (r: bool)
    ensures
        r == ends_with(s@, suffix@),
{
    if suffix.len() > s.len() {
        return false;
    }
    let offset = s.len() - suffix.len();
    let n = s.len();
    let mut i: usize = 0;
    while i < suffix.len()
        invariant
            i <= suffix@.len(),
            n == s@.len(),
            offset + suffix@.len() == s@.len(),
            forall|j: int| 0 <= j < i ==> s@[offset + j] == suffix@[j],
        decreases suffix@.len() - i,
    {
        assert(offset + i < s@.len());
        if s[offset + i] != suffix[i] {
            assert(s@.skip(offset as int)[i as int] != suffix@[i as int]);
            return false;
        }
        i = i + 1;
    }
    assert(s@.skip(offset as int) =~= suffix@);
    true
}

// ---------------------------------------------------------------------------------------------
// The listing of a crawl

/// The end of the name of the first data file of a crawl.
pub open spec fn first_data_file_suffix() -> Seq<char> {
    "cdx-00000.gz"@
}

/// The end of the name of the cluster index of a crawl.
pub open spec fn cluster_index_suffix() -> Seq<char> {
    "cluster.idx"@
}

/// The last line naming the first data file, and the last other line naming the cluster index.
pub open spec fn spec_index_files(lines: Seq<Seq<char>>) -> (Option<Seq<char>>, Option<Seq<char>>)
    decreases lines.len(),
{
    if lines.len() == 0 {
        (None, None)
    } else {
        let (data, index) = spec_index_files(lines.drop_last());
        let line = lines.last();
        if ends_with(line, first_data_file_suffix()) {
            (Some(line), index)
        } else if ends_with(line, cluster_index_suffix()) {
            (data, Some(line))
        } else {
            (data, index)
        }
    }
}

pub open spec fn lines_view(lines: Seq<String>) -> Seq<Seq<char>> {
    lines.map_values(|l: String| l@)
}

pub open spec fn opt_string_view(o: Option<String>) -> Option<Seq<char>> {
    match o {
        Some(s) => Some(s@),
        None => None,
    }
}

/// Finds, among the lines of the listing of a crawl, the first data file and the cluster index
/// (see [`spec_index_files`]).
pub fn find_index_files(lines: &[String]) -> (r: (Option<String>, Option<String>))
    ensures
        (opt_string_view(r.0), opt_string_view(r.1)) == spec_index_files(lines_view(lines@)),
{
    let data_suffix = chars_of("cdx-00000.gz");
    let index_suffix = chars_of("cluster.idx");
    let mut data: Option<String> = None;
    let mut index: Option<String> = None;
    let mut i: usize = 0;
    while i < lines.len()
        invariant
            i <= lines@.len(),
            data_suffix@ == first_data_file_suffix(),
            index_suffix@ == cluster_index_suffix(),
            (opt_string_view(data), opt_string_view(index)) == spec_index_files(lines_view(lines@).take(i as int)),
        decreases lines@.len() - i,
    {
        let line = chars_of(lines[i].as_str());
        assert(lines_view(lines@).take(i + 1).drop_last() =~= lines_view(lines@).take(i as int));
        if chars_end_with(&line, &data_suffix) {
            data = Some(lines[i].clone());
        } else if chars_end_with(&line, &index_suffix) {
            index = Some(lines[i].clone());
        }
        i = i + 1;
    }
    assert(lines_view(lines@).take(lines@.len() as int) =~= lines_view(lines@));
    (data, index)
}

// ---------------------------------------------------------------------------------------------
// The cluster index

/// A line of the cluster index: the SURT prefix up to the first `)` of its first field, and the
/// number of its data file, read from bytes 4 to 9 of its second field (as in `cdx-00159.gz`).
/// There is none where the line has no second field or the number cannot be read.
pub open spec fn spec_index_line(line: Seq<char>) -> Option<(Seq<char>, u16)> {
    match spec_split_once(line, '\t') {
        None => None,
        Some((first, rest)) => {
            let data_file = before_first(rest, '\t');
            let surt = before_first(first, ')');
            match byte_slice(data_file, 4, 9) {
                None => None,
                Some(number) => match spec_parse_u16(number) {
                    None => None,
                    Some(n) => Some((surt, n)),
                },
            }
        },
    }
}

fn before<'a>(s: &'a str, c: char) -> (r: &'a str)
    ensures
        r@ == before_first(s@, c),
{
    match split_once(s, c) {
        Some((first, _)) => first,
        None => s,
    }
}

/// Reads a line of the cluster index (see [`spec_index_line`]).
pub fn parse_index_line(line: &str) -> (r: Option<(String, u16)>)
    ensures
        match r {
            Some(e) => spec_index_line(line@) == Some((e.0@, e.1)),
            None => spec_index_line(line@) is None,
        },
{
    let (first, rest) = match split_once(line, '\t') {
        Some(p) => p,
        None => return None,
    };
    let data_file = before(rest, '\t');
    let surt = before(first, ')');
    let number = match get_bytes(data_file, 4, 9) {
        Some(n) => n,
        None => return None,
    };
    match parse_u16(number) {
        Some(n) => Some((surt.to_string(), n)),
        None => None,
    }
}

// ---------------------------------------------------------------------------------------------
// The order of SURT prefixes

pub(crate) proof fn lemma_seq_lt_irreflexive(a: Seq<char>)
    ensures
        !seq_lt(a, a),
    decreases a.len(),
{
    if a.len() > 0 {
        lemma_seq_lt_irreflexive(a.drop_first());
    }
}

pub(crate) proof fn lemma_seq_lt_transitive(a: Seq<char>, b: Seq<char>, c: Seq<char>)
    requires
        seq_lt(a, b),
        seq_lt(b, c),
    ensures
        seq_lt(a, c),
    decreases a.len(),
{
    if a.len() > 0 && b.len() > 0 && c.len() > 0 && a[0] == b[0] && b[0] == c[0] {
        lemma_seq_lt_transitive(a.drop_first(), b.drop_first(), c.drop_first());
    }
}

pub(crate) proof fn lemma_seq_lt_total(a: Seq<char>, b: Seq<char>)
    ensures
        a == b || seq_lt(a, b) || seq_lt(b, a),
    decreases a.len(),
{
    if a.len() > 0 && b.len() > 0 && a[0] == b[0] {
        lemma_seq_lt_total(a.drop_first(), b.drop_first());
        if a.drop_first() == b.drop_first() {
            assert(a =~= seq![a[0]] + a.drop_first());
            assert(b =~= seq![b[0]] + b.drop_first());
        }
    } else if a.len() > 0 && b.len() > 0 {
        if (a[0] as u32) == (b[0] as u32) {
            lemma_char_of_code(a[0], a[0] as u32);
            lemma_char_of_code(b[0], b[0] as u32);
        }
    } else if a.len() == 0 && b.len() == 0 {
        assert(a =~= b);
    }
}

/// Whether `a` comes before `b` as `str` compares: by their characters, lexicographically.
pub(crate) fn str_lt(a: &str, b: &str) -> (r: bool)
    ensures
        r == seq_lt(a@, b@),
{
    chars_lt(&chars_of(a), &chars_of(b))
}

// ---------------------------------------------------------------------------------------------
// The cluster index as a sorted map

/// The cluster index read from its lines: each SURT prefix maps to the data file of its last
/// line; there is none if a line cannot be read.
pub open spec fn spec_index(lines: Seq<Seq<char>>) -> Option<Map<Seq<char>, u16>>
    decreases lines.len(),
{
    if lines.len() == 0 {
        Some(Map::empty())
    } else {
        match spec_index(lines.drop_last()) {
            None => None,
            Some(m) => match spec_index_line(lines.last()) {
                None => None,
                Some(e) => Some(m.insert(e.0, e.1)),
            },
        }
    }
}

/// Whether some entry of `s` has key `k`.
pub open spec fn has_key(s: Seq<(String, u16)>, k: Seq<char>) -> bool {
    exists|i: int| 0 <= i < s.len() && (#[trigger] s[i]).0@ == k
}

/// The entries of `s` as a map.
pub open spec fn as_map(s: Seq<(String, u16)>) -> Map<Seq<char>, u16> {
    Map::new(
        |k: Seq<char>| has_key(s, k),
        |k: Seq<char>| s[choose|i: int| 0 <= i < s.len() && (#[trigger] s[i]).0@ == k].1,
    )
}

proof fn lemma_as_map_entry(s: Seq<(String, u16)>, i: int)
    requires
        keys_sorted(s),
        0 <= i < s.len(),
    ensures
        as_map(s).contains_key(s[i].0@),
        as_map(s)[s[i].0@] == s[i].1,
{
    let k = s[i].0@;
    assert(has_key(s, k));
    let j = choose|j: int| 0 <= j < s.len() && (#[trigger] s[j]).0@ == k;
    lemma_seq_lt_irreflexive(k);
    if j < i {
        assert(seq_lt(s[j].0@, s[i].0@));
    } else if j > i {
        assert(seq_lt(s[i].0@, s[j].0@));
    }
    assert(j == i);
    assert(as_map(s).dom().contains(k));
    assert(as_map(s)[k] == s[j].1);
}

/// Adds `key` with `value` to the sorted entries `index`, replacing the value of an equal key.
fn insert_sorted(index: &mut Vec<(String, u16)>, key: String, value: u16)
    requires
        keys_sorted(old(index)@),
    ensures
        keys_sorted(final(index)@),
        as_map(final(index)@) == as_map(old(index)@).insert(key@, value),
{
    let ghost s = index@;
    let mut p = index.len();
    while p > 0 && str_lt(key.as_str(), index[p - 1].0.as_str())
        invariant
            p <= index@.len(),
            index@ == s,
            forall|j: int| p <= j < s.len() ==> seq_lt(key@, #[trigger] s[j].0@),
        decreases p,
    {
        p = p - 1;
    }
    if p > 0 && str_equals(index[p - 1].0.as_str(), key.as_str()) {
        let (k, _) = index.remove(p - 1);
        index.insert(p - 1, (k, value));
        let ghost t = index@;
        assert(t =~= s.update(p - 1, (k, value)));
        assert(keys_sorted(t)) by {
            assert forall|i: int, j: int| 0 <= i < j < t.len() implies seq_lt(#[trigger] t[i].0@, #[trigger] t[j].0@) by {
                assert(t[i].0@ == s[i].0@ && t[j].0@ == s[j].0@);
            }
        }
        assert(as_map(t) =~= as_map(s).insert(key@, value)) by {
            lemma_as_map_entry(t, p - 1);
            assert forall|x: Seq<char>| #[trigger] has_key(t, x) == (has_key(s, x) || x == key@) by {
                if has_key(s, x) {
                    let i = choose|i: int| 0 <= i < s.len() && (#[trigger] s[i]).0@ == x;
                    assert(t[i].0@ == x);
                }
                if has_key(t, x) {
                    let i = choose|i: int| 0 <= i < t.len() && (#[trigger] t[i]).0@ == x;
                    assert(s[i].0@ == x);
                }
            }
            assert forall|x: Seq<char>| has_key(t, x) && x != key@ implies #[trigger] as_map(t)[x] == as_map(s)[x] by {
                let i = choose|i: int| 0 <= i < t.len() && (#[trigger] t[i]).0@ == x;
                lemma_as_map_entry(t, i);
                lemma_as_map_entry(s, i);
            }
        }
    } else {
        proof {
            if p > 0 {
                lemma_seq_lt_total(s[p - 1].0@, key@);
            }
        }
        let ghost kv = key@;
        index.insert(p, (key, value));
        let ghost t = index@;
        assert(t =~= s.insert(p as int, t[p as int]));
        assert(keys_sorted(t)) by {
            assert forall|i: int, j: int| 0 <= i < j < t.len() implies seq_lt(#[trigger] t[i].0@, #[trigger] t[j].0@) by {
                if j < p {
                    assert(t[i] == s[i] && t[j] == s[j]);
                } else if j == p {
                    assert(t[i] == s[i]);
                    if i < p - 1 {
                        lemma_seq_lt_transitive(s[i].0@, s[p - 1].0@, kv);
                    }
                } else if i == p {
                    assert(t[j] == s[j - 1]);
                } else if i < p {
                    assert(t[i] == s[i] && t[j] == s[j - 1]);
                    if i < p - 1 {
                        lemma_seq_lt_transitive(s[i].0@, s[p - 1].0@, kv);
                    }
                    lemma_seq_lt_transitive(s[i].0@, kv, s[j - 1].0@);
                } else {
                    assert(t[i] == s[i - 1] && t[j] == s[j - 1]);
                }
            }
        }
        assert(!has_key(s, kv)) by {
            if has_key(s, kv) {
                let i = choose|i: int| 0 <= i < s.len() && (#[trigger] s[i]).0@ == kv;
                lemma_seq_lt_irreflexive(kv);
                if i < p - 1 {
                    lemma_seq_lt_transitive(s[i].0@, s[p - 1].0@, kv);
                }
            }
        }
        assert(as_map(t) =~= as_map(s).insert(kv, value)) by {
            lemma_as_map_entry(t, p as int);
            assert forall|x: Seq<char>| #[trigger] has_key(t, x) == (has_key(s, x) || x == kv) by {
                if has_key(s, x) {
                    let i = choose|i: int| 0 <= i < s.len() && (#[trigger] s[i]).0@ == x;
                    if i < p {
                        assert(t[i] == s[i]);
                    } else {
                        assert(t[i + 1] == s[i]);
                    }
                }
                if has_key(t, x) && x != kv {
                    let i = choose|i: int| 0 <= i < t.len() && (#[trigger] t[i]).0@ == x;
                    if i < p {
                        assert(s[i] == t[i]);
                    } else {
                        assert(s[i - 1] == t[i]);
                    }
                }
            }
            assert forall|x: Seq<char>| has_key(t, x) && x != kv implies #[trigger] as_map(t)[x] == as_map(s)[x] by {
                let i = choose|i: int| 0 <= i < t.len() && (#[trigger] t[i]).0@ == x;
                lemma_as_map_entry(t, i);
                if i < p {
                    assert(s[i] == t[i]);
                    lemma_as_map_entry(s, i);
                } else {
                    assert(s[i - 1] == t[i]);
                    lemma_as_map_entry(s, i - 1);
                }
            }
        }
    }
}

/// Reads the cluster index from its lines (see [`spec_index`]): the entries in ascending order
/// of their SURT prefix, as an ordered map iterates them; `None` if a line cannot be read.
pub fn build_index(lines: &[String]) -> (r: Option<Vec<(String, u16)>>)
    ensures
        match spec_index(lines_view(lines@)) {
            None => r is None,
            Some(m) => r matches Some(v) && keys_sorted(v@) && as_map(v@) == m,
        },
{
    let ghost lv = lines_view(lines@);
    let mut index: Vec<(String, u16)> = Vec::new();
    let mut i: usize = 0;
    assert(as_map(index@) =~= Map::<Seq<char>, u16>::empty());
    while i < lines.len()
        invariant
            i <= lines@.len(),
            lv == lines_view(lines@),
            keys_sorted(index@),
            spec_index(lv.take(i as int)) == Some(as_map(index@)),
        decreases lines@.len() - i,
    {
        assert(lv.take(i + 1).drop_last() =~= lv.take(i as int));
        assert(lv.take(i + 1).last() == lines@[i as int]@);
        match parse_index_line(lines[i].as_str()) {
            None => {
                proof {
                    lemma_index_fails_on(lv, i as int);
                }
                return None;
            },
            Some((key, value)) => {
                insert_sorted(&mut index, key, value);
            },
        }
        i = i + 1;
    }
    assert(lv.take(lines@.len() as int) =~= lv);
    Some(index)
}

/// A line that cannot be read makes the whole index unreadable.
proof fn lemma_index_fails_on(lines: Seq<Seq<char>>, i: int)
    requires
        0 <= i < lines.len(),
        spec_index_line(lines[i]) is None,
    ensures
        spec_index(lines) is None,
    decreases lines.len(),
{
    if i < lines.len() - 1 {
        lemma_index_fails_on(lines.drop_last(), i);
    } else {
        assert(lines.last() == lines[i]);
    }
}

// ---------------------------------------------------------------------------------------------
// Data files per domain

/// The data files that may hold URLs of `domain`, from the first to the last (see
/// [`find_prev_and_next_elements`]).
pub open spec fn spec_file_range(index: Seq<(String, u16)>, domain: Seq<char>) -> (u16, u16) {
    let surt = spec_domain_to_surt(domain);
    let keys = index.map_values(|e: (String, u16)| e.0@);
    let values = index.map_values(|e: (String, u16)| e.1);
    let n = first_after(keys, shift_last(surt, -1));
    (value_before(keys, values, shift_last(surt, 1)), if n < keys.len() {
        values[n]
    } else {
        values.last()
    })
}

/// The domains whose range of data files includes `file`, in their order.
pub open spec fn domains_of_file(index: Seq<(String, u16)>, domains: Seq<Seq<char>>, file: int) -> Seq<Seq<char>>
    decreases domains.len(),
{
    if domains.len() == 0 {
        Seq::empty()
    } else {
        let rest = domains_of_file(index, domains.drop_last(), file);
        let range = spec_file_range(index, domains.last());
        if range.0 <= file <= range.1 {
            rest.push(domains.last())
        } else {
            rest
        }
    }
}

/// For each data file from `file` on that may hold URLs of some domains, in ascending order:
/// the file and those domains.
pub open spec fn files_from(index: Seq<(String, u16)>, domains: Seq<Seq<char>>, file: int) -> Seq<(u16, Seq<Seq<char>>)>
    decreases 65536 - file,
{
    if file < 0 || file >= 65536 {
        Seq::empty()
    } else {
        let ds = domains_of_file(index, domains, file);
        let rest = files_from(index, domains, file + 1);
        if ds.len() > 0 {
            seq![(file as u16, ds)] + rest
        } else {
            rest
        }
    }
}

pub open spec fn strings_view(v: Seq<String>) -> Seq<Seq<char>> {
    v.map_values(|s: String| s@)
}

/// Which data files to search for the URLs of `domains`: each data file, in ascending order,
/// with the domains whose range of files includes it (see [`files_from`]).
pub fn files_for_domains(index: &[(String, u16)], domains: &[String]) -> (r: Vec<(u16, Vec<String>)>)
    requires
        index@.len() > 0,
        keys_sorted(index@),
        forall|i: int| 0 <= i < domains@.len() ==> shiftable(spec_domain_to_surt(#[trigger] domains@[i]@)),
    ensures
        r@.len() == files_from(index@, strings_view(domains@), 0).len(),
        forall|i: int|
            0 <= i < r@.len() ==> (#[trigger] r@[i]).0 == files_from(index@, strings_view(domains@), 0)[i].0
                && strings_view(r@[i].1@) == files_from(index@, strings_view(domains@), 0)[i].1,
{
    let ghost dv = strings_view(domains@);
    let mut buckets: Vec<Vec<String>> = Vec::new();
    let mut f: usize = 0;
    while f < 65536
        invariant
            f <= 65536,
            buckets@.len() == f,
            forall|x: int| 0 <= x < f ==> (#[trigger] buckets@[x])@.len() == 0,
        decreases 65536 - f,
    {
        buckets.push(Vec::new());
        f = f + 1;
    }
    let mut j: usize = 0;
    while j < domains.len()
        invariant
            j <= domains@.len(),
            dv == strings_view(domains@),
            index@.len() > 0,
            keys_sorted(index@),
            forall|i: int| 0 <= i < domains@.len() ==> shiftable(spec_domain_to_surt(#[trigger] domains@[i]@)),
            buckets@.len() == 65536,
            forall|x: int| 0 <= x < 65536 ==> strings_view((#[trigger] buckets@[x])@) == domains_of_file(index@, dv.take(j as int), x),
        decreases domains@.len() - j,
    {
        let surt = domain_to_surt(domains[j].as_str());
        let (start, end) = find_prev_and_next_elements(index, surt.as_str());
        assert((start, end) == spec_file_range(index@, domains@[j as int]@));
        let ghost before = buckets@;
        assert(dv.take(j + 1).drop_last() =~= dv.take(j as int));
        assert(dv.take(j + 1).last() == domains@[j as int]@);
        let mut x: u32 = start as u32;
        while x <= end as u32
            invariant
                j < domains@.len(),
                before.len() == 65536,
                start <= x <= end as u32 + 1 || (x == start && start > end),
                buckets@.len() == 65536,
                forall|y: int|
                    0 <= y < 65536 ==> (#[trigger] buckets@[y])@ == if start <= y < x {
                        before[y]@.push(domains@[j as int])
                    } else {
                        before[y]@
                    },
            decreases end as u32 + 1 - x,
        {
            let mut bucket = buckets.remove(x as usize);
            bucket.push(domains[j].clone());
            buckets.insert(x as usize, bucket);
            x = x + 1;
        }
        assert forall|y: int| 0 <= y < 65536 implies strings_view((#[trigger] buckets@[y])@) == domains_of_file(
            index@,
            dv.take(j + 1),
            y,
        ) by {
            if start <= y <= end {
                assert(strings_view(buckets@[y]@) =~= strings_view(before[y]@).push(domains@[j as int]@));
            }
        }
        j = j + 1;
    }
    assert(dv.take(domains@.len() as int) =~= dv);
    let mut out: Vec<(u16, Vec<String>)> = Vec::new();
    let mut rev: Vec<(u16, Vec<String>)> = Vec::new();
    let mut g: usize = 65536;
    while g > 0
        invariant
            g <= 65536,
            buckets@.len() == g,
            forall|x: int| 0 <= x < g ==> strings_view((#[trigger] buckets@[x])@) == domains_of_file(index@, dv, x),
            rev@.len() == files_from(index@, dv, g as int).len(),
            forall|i: int|
                0 <= i < rev@.len() ==> (#[trigger] rev@[i]).0 == files_from(index@, dv, g as int)[rev@.len() - 1 - i].0
                    && strings_view(rev@[i].1@) == files_from(index@, dv, g as int)[rev@.len() - 1 - i].1,
        decreases g,
    {
        let bucket = buckets.pop().unwrap();
        g = g - 1;
        if bucket.len() > 0 {
            rev.push((g as u16, bucket));
        }
    }
    while rev.len() > 0
        invariant
            rev@.len() + out@.len() == files_from(index@, dv, 0).len(),
            forall|i: int|
                0 <= i < rev@.len() ==> (#[trigger] rev@[i]).0 == files_from(index@, dv, 0)[files_from(index@, dv, 0).len() - 1 - i].0
                    && strings_view(rev@[i].1@) == files_from(index@, dv, 0)[files_from(index@, dv, 0).len() - 1 - i].1,
            forall|i: int|
                0 <= i < out@.len() ==> (#[trigger] out@[i]).0 == files_from(index@, dv, 0)[i].0 && strings_view(out@[i].1@)
                    == files_from(index@, dv, 0)[i].1,
        decreases rev@.len(),
    {
        let e = rev.pop().unwrap();
        out.push(e);
    }
    out
}

// ---------------------------------------------------------------------------------------------
// Selecting URLs

/// The JSON part of a line of a data file: what follows its second space.
pub open spec fn spec_cdx_json(line: Seq<char>) -> Option<Seq<char>> {
    match spec_split_once(line, ' ') {
        None => None,
        Some((_, rest)) => match spec_split_once(rest, ' ') {
            None => None,
            Some((_, json)) => Some(json),
        },
    }
}

/// The JSON part of a line of a data file (see [`spec_cdx_json`]).
pub fn cdx_json(line: &str) -> (r: Option<&str>)
    ensures
        match r {
            Some(j) => spec_cdx_json(line@) == Some(j@),
            None => spec_cdx_json(line@) is None,
        },
{
    let (_, rest) = split_once(line, ' ')?;
    let (_, json) = split_once(rest, ' ')?;
    Some(json)
}

/// Whether the bytes `p` occur in the bytes `h`.
pub open spec fn contains_bytes(h: Seq<u8>, p: Seq<u8>) -> bool {
    exists|i: int| 0 <= i && i + p.len() <= h.len() && #[trigger] h.subrange(i, i + p.len()) == p
}

/// Whether one of `patterns` occurs in `text`, byte for byte.
pub open spec fn any_occurs(text: Seq<char>, patterns: Seq<Seq<u8>>) -> bool {
    exists|i: int| 0 <= i < patterns.len() && contains_bytes(encode_utf8(text), #[trigger] patterns[i])
}

#[verifier::external_type_specification]
#[verifier::external_body]
pub struct ExAhoCorasick(AhoCorasick);

/// The patterns an automaton searches for.
pub uninterp spec fn automaton_patterns(automaton: AhoCorasick) -> Seq<Seq<u8>>;

/// Whether aho-corasick's `AhoCorasick::new` builds an automaton for the patterns (it fails only
/// where a limit on the number or length of the patterns is exceeded).
pub uninterp spec fn automaton_builds(patterns: Seq<Seq<char>>) -> bool;

/// Builds an automaton for `patterns` with aho-corasick's `AhoCorasick::new`, which fails only
/// where a limit on the number or length of the patterns is exceeded.
#[verifier::external_body]
fn build_automaton(patterns: &[String]) -> (r: Option<AhoCorasick>)
    ensures
        r is Some <==> automaton_builds(strings_view(patterns@)),
        r matches Some(a) ==> automaton_patterns(a) == patterns@.map_values(|p: String| encode_utf8(p@)),
{
    AhoCorasick::new(patterns).ok()
}

/// aho-corasick's `AhoCorasick::is_match`: whether one of the automaton's patterns occurs in
/// `text`.
#[verifier::external_body]
fn automaton_matches(automaton: &AhoCorasick, text: &str) -> (r: bool)
    ensures
        r == any_occurs(text@, automaton_patterns(*automaton)),
{
    automaton.is_match(text)
}

/// Selects the URLs of data files that belong to some domains.
pub struct UrlFilter {
    automaton: AhoCorasick,
    domains: Vec<String>,
}

/// Whether a URL with status `status` is kept for `domains`: its status is `200`, one of the
/// domains occurs in it, and its host is one of the domains or a subdomain of one. `None` where
/// the URL has no host.
pub open spec fn spec_keep_url(domains: Seq<Seq<char>>, url: Seq<char>, status: Seq<char>) -> Option<bool> {
    if status != "200"@ {
        Some(false)
    } else if !any_occurs(url, domains.map_values(|d: Seq<char>| encode_utf8(d))) {
        Some(false)
    } else {
        match url_host_of(url) {
            None => None,
            Some(host) => Some(exists|i: int| 0 <= i < domains.len() && host_in_domain(host, #[trigger] domains[i])),
        }
    }
}

impl UrlFilter {
    pub closed spec fn domains(&self) -> Seq<Seq<char>> {
        strings_view(self.domains@)
    }

    pub closed spec fn wf(&self) -> bool {
        automaton_patterns(self.automaton) == self.domains@.map_values(|p: String| encode_utf8(p@))
    }

    /// A filter for the URLs of `domains`; `None` if the automaton cannot be built.
    pub fn new(domains: Vec<String>) -> (r: Option<Self>)
        ensures
            r is Some <==> automaton_builds(strings_view(domains@)),
            r matches Some(f) ==> f.wf() && f.domains() == strings_view(domains@),
    {
        let automaton = build_automaton(domains.as_slice())?;
        Some(UrlFilter { automaton, domains })
    }

    /// Whether to keep `url`, listed with status `status` (see [`spec_keep_url`]).
    pub fn keep_url(&self, url: &str, status: &str) -> (r: Option<bool>)
        requires
            self.wf(),
        ensures
            r == spec_keep_url(self.domains(), url@, status@),
    {
        proof {
            assert(self.domains().map_values(|d: Seq<char>| encode_utf8(d)) =~= automaton_patterns(self.automaton));
        }
        if !str_equals(status, "200") {
            return Some(false);
        }
        if !automaton_matches(&self.automaton, url) {
            return Some(false);
        }
        let r = checked_url_has_domain_or_subdomain_of(url, self.domains.as_slice());
        proof {
            assert forall|i: int| 0 <= i < self.domains@.len() implies #[trigger] self.domains@[i]@ == self.domains()[i] by {}
        }
        r
    }
}

/// Whether the index can be searched around `domain`: the last character of its SURT form has
/// characters on both sides (see [`shiftable`] and [`files_for_domains`]).
pub fn domain_shiftable(domain: &str) -> (r: bool)
    ensures
        r == shiftable(spec_domain_to_surt(domain@)),
{
    let surt = domain_to_surt(domain);
    let chars = chars_of(surt.as_str());
    if chars.len() == 0 {
        return false;
    }
    let c = chars[chars.len() - 1] as u32;
    if c < 1 || c == u32::MAX {
        return false;
    }
    let below = c - 1;
    let above = c + 1;
    (below <= 0x10FFFF && !(0xD800 <= below && below <= 0xDFFF)) && (above <= 0x10FFFF && !(0xD800
        <= above && above <= 0xDFFF))
}

} // verus!
