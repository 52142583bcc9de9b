//! Domain name helpers: SURT form, index lookup and host matching.

use vstd::prelude::*;

verus! {

/// The characters of `s`.
pub(crate) fn chars_of(s: &str) -> (r: Vec<char>)
    ensures
        r@ == s@,
{
    let n = s.unicode_len();
    let mut out: Vec<char> = Vec::new();
    let mut i: usize = 0;
    while i < n
        invariant
            i <= n,
            n == s@.len(),
            out@ == s@.take(i as int),
        decreases n - i,
    {
        out.push(s.get_char(i));
        i = i + 1;
        assert(out@ =~= s@.take(i as int));
    }
    assert(s@.take(n as int) =~= s@);
    out
}

/// Splits `s` at every `.`; there is always at least one (possibly empty) part.
pub open spec fn dot_split(s: Seq<char>) -> Seq<Seq<char>>
    decreases s.len(),
{
    if s.len() == 0 {
        seq![Seq::<char>::empty()]
    } else {
        let p = dot_split(s.drop_last());
        if s.last() == '.' {
            p.push(Seq::<char>::empty())
        } else {
            p.update(p.len() - 1, p.last().push(s.last()))
        }
    }
}

/// One step of building a SURT: the part is appended, after a `,` unless nothing has been
/// written yet (so empty parts at the front vanish).
pub open spec fn surt_step(acc: Seq<char>, part: Seq<char>) -> Seq<char> {
    if acc.len() == 0 {
        part
    } else {
        acc + seq![','] + part
    }
}

/// The parts appended to `acc` by [`surt_step`], last part first.
pub open spec fn surt_fold(acc: Seq<char>, parts: Seq<Seq<char>>) -> Seq<char>
    decreases parts.len(),
{
    if parts.len() == 0 {
        acc
    } else {
        surt_fold(surt_step(acc, parts.last()), parts.drop_last())
    }
}

/// The SURT form of a domain: its labels in reverse order, separated by `,`, where no `,`
/// stands before the first non-empty text.
pub open spec fn spec_domain_to_surt(domain: Seq<char>) -> Seq<char> {
    surt_fold(Seq::empty(), dot_split(domain))
}

proof fn lemma_dot_split_nonempty(s: Seq<char>)
    ensures
        dot_split(s).len() >= 1,
    decreases s.len(),
{
    if s.len() > 0 {
        lemma_dot_split_nonempty(s.drop_last());
    }
}

/// Converts a domain into SURT form, e.g. `google.com` into `com,google`.
pub fn domain_to_surt(domain: &str) -> (r: String)
    ensures
        r@ == spec_domain_to_surt(domain@),
{
    let chars = chars_of(domain);
    let n = chars.len();
    // Start (inclusive) and end (exclusive) of each part.
    let mut starts: Vec<usize> = Vec::new();
    let mut ends: Vec<usize> = Vec::new();
    let mut cur: usize = 0;
    let mut i: usize = 0;
    proof {
        lemma_dot_split_nonempty(chars@);
    }
    while i < n
        invariant
            i <= n,
            n == chars@.len(),
            cur <= i,
            starts@.len() == ends@.len(),
            dot_split(chars@.take(i as int)).len() == starts@.len() + 1,
            forall|k: int|
                0 <= k < starts@.len() ==> #[trigger] starts@[k] <= ends@[k] <= n && chars@.subrange(
                    starts@[k] as int,
                    ends@[k] as int,
                ) == dot_split(chars@.take(i as int))[k],
            chars@.subrange(cur as int, i as int) == dot_split(chars@.take(i as int)).last(),
        decreases n - i,
    {
        let ghost pre = chars@.take(i as int);
        proof {
            lemma_dot_split_nonempty(pre);
            assert(chars@.take(i + 1).drop_last() =~= pre);
        }
        if chars[i] == '.' {
            starts.push(cur);
            ends.push(i);
            cur = i + 1;
            assert(chars@.subrange(cur as int, (i + 1) as int) =~= Seq::<char>::empty());
        } else {
            assert(chars@.subrange(cur as int, (i + 1) as int) =~= chars@.subrange(cur as int, i as int).push(
                chars@[i as int],
            ));
        }
        i = i + 1;
    }
    starts.push(cur);
    ends.push(n);
    assert(chars@.take(n as int) =~= chars@);
    let ghost parts = dot_split(chars@);
    assert(forall|k: int|
        0 <= k < starts@.len() ==> #[trigger] starts@[k] <= ends@[k] <= n && chars@.subrange(
            starts@[k] as int,
            ends@[k] as int,
        ) == parts[k]);
    let m = starts.len();
    let mut out = String::new();
    let mut written = false;
    proof {
        reveal_strlit(",");
        assert(parts.take(m as int) =~= parts);
    }
    let mut k: usize = m;
    while k > 0
        invariant
            k <= m,
            m == parts.len(),
            starts@.len() == m,
            ends@.len() == m,
            chars@ == domain@,
            n == chars@.len(),
            forall|j: int|
                0 <= j < m ==> #[trigger] starts@[j] <= ends@[j] <= n && chars@.subrange(
                    starts@[j] as int,
                    ends@[j] as int,
                ) == parts[j],
            written == (out@.len() > 0),
            surt_fold(out@, parts.take(k as int)) == spec_domain_to_surt(domain@),
        decreases k,
    {
        let ghost old_out = out@;
        k = k - 1;
        let piece = domain.substring_char(starts[k], ends[k]);
        proof {
            assert(parts.take(k + 1).drop_last() =~= parts.take(k as int));
            assert(parts.take(k + 1).last() == parts[k as int]);
            assert(piece@ == parts[k as int]);
        }
        if written {
            out.append(",");
        }
        out.append(piece);
        if starts[k] < ends[k] {
            written = true;
        }
        proof {
            reveal_strlit(",");
            if old_out.len() == 0 {
                assert(out@ =~= parts[k as int]);
            } else {
                assert(out@ =~= old_out + seq![','] + parts[k as int]);
            }
            assert(out@ == surt_step(old_out, parts[k as int]));
        }
    }
    assert(parts.take(0) =~= Seq::<Seq<char>>::empty());
    out
}

/// Whether the keys of `s` ascend strictly.
pub open spec fn keys_sorted(s: Seq<(String, u16)>) -> bool {
    forall|i: int, j: int| 0 <= i < j < s.len() ==> seq_lt(#[trigger] s[i].0@, #[trigger] s[j].0@)
}

/// Lexicographic order on character sequences, as `str` compares.
pub open spec fn seq_lt(a: Seq<char>, b: Seq<char>) -> bool
    decreases a.len(),
{
    if a.len() == 0 {
        b.len() > 0
    } else if b.len() == 0 {
        false
    } else if a[0] != b[0] {
        (a[0] as u32) < (b[0] as u32)
    } else {
        seq_lt(a.drop_first(), b.drop_first())
    }
}

pub(crate) fn chars_lt(a: &Vec<char>, b: &Vec<char>) -> (r: bool)
    ensures
        r == seq_lt(a@, b@),
{
    let mut i: usize = 0;
    assert(a@.skip(0) =~= a@);
    assert(b@.skip(0) =~= b@);
    while i < a.len() && i < b.len() && a[i] == b[i]
        invariant
            i <= a@.len(),
            i <= b@.len(),
            seq_lt(a@, b@) == seq_lt(a@.skip(i as int), b@.skip(i as int)),
        decreases a@.len() - i,
    {
        assert(a@.skip(i as int).drop_first() =~= a@.skip(i + 1));
        assert(b@.skip(i as int).drop_first() =~= b@.skip(i + 1));
        i = i + 1;
    }
    if i == a.len() {
        i < b.len()
    } else if i == b.len() {
        false
    } else {
        (a[i] as u32) < (b[i] as u32)
    }
}

/// Whether `v` is the code of a character.
pub open spec fn is_char_code(v: u32) -> bool {
    v <= 0x10FFFF && !(0xD800 <= v && v <= 0xDFFF)
}

/// Calls `char::from_u32`, which gives the character with code `v` if there is one.
#[verifier::external_body]
fn char_from_u32(v: u32) -> (r: Option<char>)
    ensures
        r.is_some() == is_char_code(v),
        r.is_some() ==> r.unwrap() as u32 == v,
{
    char::from_u32(v)
}

/// `s` with its last character shifted by `delta` code points.
pub open spec fn shift_last(s: Seq<char>, delta: int) -> Seq<char> {
    s.update(s.len() - 1, (((s.last() as u32) as int + delta) as u32) as char)
}

/// Value of the last entry whose key is below `bound`, or 0 if there is none.
pub open spec fn value_before(keys: Seq<Seq<char>>, values: Seq<u16>, bound: Seq<char>) -> u16
    decreases keys.len(),
{
    if keys.len() == 0 {
        0
    } else if seq_lt(keys.last(), bound) {
        values[keys.len() - 1]
    } else {
        value_before(keys.drop_last(), values, bound)
    }
}

/// Index of the first entry whose key is above `bound`, or `keys.len()` if there is none.
pub open spec fn first_after(keys: Seq<Seq<char>>, bound: Seq<char>) -> int
    decreases keys.len(),
{
    if keys.len() == 0 {
        0
    } else if seq_lt(bound, keys[0]) {
        0
    } else {
        1 + first_after(keys.drop_first(), bound)
    }
}

pub(crate) proof fn lemma_char_of_code(a: char, v: u32)
    requires
        a as u32 == v,
    ensures
        v as char == a,
{
}

/// Whether the last character of `d` can be moved one code point down and one up.
pub open spec fn shiftable(d: Seq<char>) -> bool {
    &&& d.len() > 0
    &&& (d.last() as u32) >= 1
    &&& is_char_code(((d.last() as u32) - 1) as u32)
    &&& (d.last() as u32) < u32::MAX
    &&& is_char_code(((d.last() as u32) + 1) as u32)
}

/// Looks up which index files may contain `domain`.
///
/// `map` holds (SURT prefix, file index) pairs in strictly ascending order of key, as a map
/// iterates them. The first
/// result is the index of the last key before the domain (or 0), the second the index of the
/// first key after it (or the last index of the map).
pub fn find_prev_and_next_elements(map: &[(String, u16)], domain: &str) -> (r: (u16, u16))
    requires
        map@.len() > 0,
        keys_sorted(map@),
        shiftable(domain@),
    ensures
        ({
            let keys = map@.map_values(|e: (String, u16)| e.0@);
            let values = map@.map_values(|e: (String, u16)| e.1);
            let prev_domain = shift_last(domain@, -1);
            let next_domain = shift_last(domain@, 1);
            let n = first_after(keys, prev_domain);
            &&& r.0 == value_before(keys, values, next_domain)
            &&& r.1 == (if n < keys.len() {
                values[n]
            } else {
                values.last()
            })
        }),
{
    let ghost keys = map@.map_values(|e: (String, u16)| e.0@);
    let ghost values = map@.map_values(|e: (String, u16)| e.1);
    let mut chars = chars_of(domain);
    let last = chars.len() - 1;
    let c = chars[last] as u32;
    let prev_c = match char_from_u32(c - 1) {
        Some(x) => x,
        None => {
            assert(false);
            'a'
        },
    };
    let next_c = match char_from_u32(c + 1) {
        Some(x) => x,
        None => {
            assert(false);
            'a'
        },
    };
    proof {
        lemma_char_of_code(prev_c, (c as int - 1) as u32);
        lemma_char_of_code(next_c, (c as int + 1) as u32);
    }
    chars.set(last, prev_c);
    let prev_domain = chars.clone();
    chars.set(last, next_c);
    let next_domain = chars;
    assert(prev_domain@ =~= shift_last(domain@, -1));
    assert(next_domain@ =~= shift_last(domain@, 1));

    // Value of the last key below `next_domain`.
    let mut prev: u16 = 0;
    let mut i: usize = 0;
    while i < map.len()
        invariant
            i <= map@.len(),
            keys == map@.map_values(|e: (String, u16)| e.0@),
            values == map@.map_values(|e: (String, u16)| e.1),
            prev == value_before(keys.take(i as int), values, next_domain@),
        decreases map@.len() - i,
    {
        let key = chars_of(map[i].0.as_str());
        assert(keys.take(i + 1).drop_last() =~= keys.take(i as int));
        assert(keys[i as int] == key@);
        if chars_lt(&key, &next_domain) {
            prev = map[i].1;
        }
        i = i + 1;
    }
    assert(keys.take(map@.len() as int) =~= keys);

    // Value of the first key above `prev_domain`.
    let mut j: usize = 0;
    let mut found: bool = false;
    while j < map.len() && !found
        invariant
            j <= map@.len(),
            keys == map@.map_values(|e: (String, u16)| e.0@),
            first_after(keys, prev_domain@) == (if found { j - 1 } else { j + first_after(keys.skip(j as int), prev_domain@) }),
            found ==> j >= 1,
        decreases map@.len() - j + (if found { 0int } else { 1int }),
    {
        let key = chars_of(map[j].0.as_str());
        assert(keys.skip(j as int)[0] == key@);
        assert(keys.skip(j as int).drop_first() =~= keys.skip(j + 1));
        if chars_lt(&prev_domain, &key) {
            found = true;
        }
        j = j + 1;
    }
    let next = if found {
        map[j - 1].1
    } else {
        assert(keys.skip(j as int) =~= Seq::<Seq<char>>::empty());
        map[map.len() - 1].1
    };
    (prev, next)
}

/// The host of `url`, or `None` if it cannot be parsed or has no host.
pub uninterp spec fn url_host_of(url: Seq<char>) -> Option<Seq<char>>;

/// Calls `url::Url::parse` and then `Url::host_str`; the host depends on the text alone.
#[verifier::external_body]
fn url_host(url: &str) -> (r: Option<String>)
    ensures
        match r {
            Some(h) => url_host_of(url@) == Some(h@),
            None => url_host_of(url@) is None,
        },
{
    match url::Url::parse(url) {
        Ok(parsed) => parsed.host_str().map(|h| h.to_string()),
        Err(_) => None,
    }
}

/// Whether `host` is `domain` or a subdomain of it.
pub open spec fn host_in_domain(host: Seq<char>, domain: Seq<char>) -> bool {
    host == domain || (host.len() > domain.len() && host.skip(host.len() - domain.len()) == domain
        && host[host.len() - domain.len() - 1] == '.')
}

/// Whether `host` is one of `domains` or a subdomain of one.
pub fn host_has_domain_or_subdomain_of(host: &str, domains: &[String]) -> (r: bool)
    ensures
        r == exists|i: int| 0 <= i < domains@.len() && host_in_domain(host@, #[trigger] domains@[i]@),
{
    let h = chars_of(host);
    let mut i: usize = 0;
    while i < domains.len()
        invariant
            i <= domains@.len(),
            h@ == host@,
            forall|k: int| 0 <= k < i ==> !host_in_domain(host@, #[trigger] domains@[k]@),
        decreases domains@.len() - i,
    {
        let d = chars_of(domains[i].as_str());
        let mut matches = h.len() == d.len();
        if matches {
            let mut k: usize = 0;
            while k < d.len() && matches
                invariant
                    k <= d@.len(),
                    d@.len() == h@.len(),
                    matches ==> forall|x: int| 0 <= x < k ==> h@[x] == d@[x],
                    !matches ==> h@ != d@,
                decreases d@.len() - k + (if matches { 1int } else { 0int }),
            {
                if h[k] != d[k] {
                    matches = false;
                } else {
                    k = k + 1;
                }
            }
            if matches {
                assert(h@ =~= d@);
            }
        }
        if !matches && h.len() > d.len() {
            let off = h.len() - d.len();
            if h[off - 1] == '.' {
                let mut k: usize = 0;
                let mut same = true;
                while k < d.len() && same
                    invariant
                        k <= d@.len(),
                        off + d@.len() == h@.len(),
                        off + d.len() == h.len(),
                        same ==> forall|x: int| 0 <= x < k ==> h@[off + x] == d@[x],
                        !same ==> h@.skip(off as int) != d@,
                    decreases d@.len() - k + (if same { 1int } else { 0int }),
                {
                    if h[off + k] != d[k] {
                        same = false;
                        assert(h@.skip(off as int)[k as int] != d@[k as int]);
                    } else {
                        k = k + 1;
                    }
                }
                if same {
                    assert(h@.skip(off as int) =~= d@);
                }
                matches = same;
            }
        } else if !matches {
            assert(!host_in_domain(host@, d@));
        }
        if matches {
            assert(host_in_domain(host@, domains@[i as int]@));
            return true;
        }
        i = i + 1;
    }
    false
}

/// Whether the host of `url` is one of `domains` or a subdomain of one.
pub fn url_has_domain_or_subdomain_of(url: &str, domains: &[String]) -> (r: bool)
    requires
        url_host_of(url@) is Some,
    ensures
        r == exists|i: int|
            0 <= i < domains@.len() && host_in_domain(url_host_of(url@).unwrap(), #[trigger] domains@[i]@),
{
    match url_host(url) {
        Some(host) => host_has_domain_or_subdomain_of(host.as_str(), domains),
        None => false,
    }
}

/// Like [`url_has_domain_or_subdomain_of`]; `None` if the URL cannot be parsed or has no host.
pub fn checked_url_has_domain_or_subdomain_of(url: &str, domains: &[String]) -> (r: Option<bool>)
    ensures
        match url_host_of(url@) {
            None => r is None,
            Some(host) => r == Some(
                exists|i: int| 0 <= i < domains@.len() && host_in_domain(host, #[trigger] domains@[i]@),
            ),
        },
{
    match url_host(url) {
        Some(_) => Some(url_has_domain_or_subdomain_of(url, domains)),
        None => None,
    }
}

} // verus!
