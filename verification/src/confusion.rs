//! Domains known to be similar: each such domain is renamed to the domain it is similar to,
//! and a label follows the renames to their end.

use crate::keyed::{
    key_index, lemma_key_index_absent, lemma_key_index_bounds, lemma_key_index_first,
    lemma_key_index_push, lemma_key_index_update,
};
use crate::sequence::{LabelledSequences, Sequence};
use vstd::prelude::*;

verus! {

/// One line of a confusion file: `domain` is similar to `is_similar_to`.
#[derive(Clone, Debug)]
pub struct ConfusionRecord {
    pub domain: String,
    pub is_similar_to: String,
}

/// A rename that replaced an earlier, different one for the same domain.
#[derive(Clone, Debug)]
pub struct ConfusionConflict {
    pub domain: String,
    pub existing: String,
    pub replacement: String,
}

/// The renames of similar domains: each domain has at most one.
pub struct ConfusionDomains {
    renames: Vec<(String, String)>,
}

/// A record as values.
pub open spec fn record_view(r: ConfusionRecord) -> (Seq<char>, Seq<char>) {
    (r.domain@, r.is_similar_to@)
}

pub open spec fn records_view(rs: Seq<ConfusionRecord>) -> Seq<(Seq<char>, Seq<char>)> {
    rs.map_values(|r: ConfusionRecord| record_view(r))
}

/// A conflict as values.
pub open spec fn conflict_view(c: ConfusionConflict) -> (Seq<char>, Seq<char>, Seq<char>) {
    (c.domain@, c.existing@, c.replacement@)
}

/// Whether a line names a comment rather than a domain: it starts with `#`.
pub open spec fn is_comment(d: Seq<char>) -> bool {
    d.len() > 0 && d[0] == '#'
}

/// The domain `d` is renamed to by the records: the target of its last record, unless `d` is a
/// comment.
pub open spec fn record_target(records: Seq<(Seq<char>, Seq<char>)>, d: Seq<char>) -> Option<Seq<char>>
    decreases records.len(),
{
    if records.len() == 0 {
        None
    } else if records.last().0 == d && !is_comment(d) {
        Some(records.last().1)
    } else {
        record_target(records.drop_last(), d)
    }
}

/// The records that replace an earlier, different rename of their domain: the domain, the
/// earlier target and the new one, in the order of the records.
pub open spec fn record_conflicts(records: Seq<(Seq<char>, Seq<char>)>) -> Seq<(Seq<char>, Seq<char>, Seq<char>)>
    decreases records.len(),
{
    if records.len() == 0 {
        Seq::empty()
    } else {
        let earlier = record_conflicts(records.drop_last());
        let (d, t) = records.last();
        match record_target(records.drop_last(), d) {
            Some(e) => if !is_comment(d) && e != t {
                earlier.push((d, e, t))
            } else {
                earlier
            },
            None => earlier,
        }
    }
}

/// The renames as values.
pub open spec fn renames_view(m: Seq<(String, String)>) -> Seq<(Seq<char>, Seq<char>)> {
    m.map_values(|e: (String, String)| (e.0@, e.1@))
}

/// The domain `d` is renamed to, if any.
pub open spec fn target_of(m: Seq<(Seq<char>, Seq<char>)>, d: Seq<char>) -> Option<Seq<char>> {
    match key_index(m, d) {
        Some(i) => Some(m[i].1),
        None => None,
    }
}

/// The domain reached from `d` by following at most `n` renames.
pub open spec fn follow(m: Seq<(Seq<char>, Seq<char>)>, d: Seq<char>, n: nat) -> Seq<char>
    decreases n,
{
    if n == 0 {
        d
    } else {
        match target_of(m, d) {
            Some(t) => follow(m, t, (n - 1) as nat),
            None => d,
        }
    }
}

/// Whether the renames from `d` end within `n` steps.
pub open spec fn chain_ends(m: Seq<(Seq<char>, Seq<char>)>, d: Seq<char>, n: nat) -> bool {
    target_of(m, follow(m, d, n)) is None
}

/// Whether `n` renames lead from `d` back to `d`.
pub open spec fn on_cycle(m: Seq<(Seq<char>, Seq<char>)>, d: Seq<char>, n: nat) -> bool {
    n > 0 && target_of(m, d) is Some && follow(m, d, n) == d
}

/// Whether the renames from `d` either end or lead back to `d`; otherwise they run into a
/// cycle that `d` is not on.
pub open spec fn resolvable(m: Seq<(Seq<char>, Seq<char>)>, d: Seq<char>) -> bool {
    (exists|n: nat| chain_ends(m, d, n)) || (exists|n: nat| on_cycle(m, d, n))
}

/// The domain the renames from `d` lead to: where they end, or `d` itself if they lead back
/// to it.
pub open spec fn resolved(m: Seq<(Seq<char>, Seq<char>)>, d: Seq<char>) -> Seq<char> {
    if exists|n: nat| chain_ends(m, d, n) {
        follow(m, d, choose|n: nat| chain_ends(m, d, n))
    } else {
        d
    }
}

proof fn lemma_follow_add(m: Seq<(Seq<char>, Seq<char>)>, d: Seq<char>, a: nat, b: nat)
    ensures
        follow(m, d, a + b) == follow(m, follow(m, d, a), b),
    decreases a,
{
    if a > 0 {
        match target_of(m, d) {
            Some(t) => {
                lemma_follow_add(m, t, (a - 1) as nat, b);
                assert((a + b - 1) as nat == (a - 1) as nat + b);
            },
            None => {
                lemma_follow_fixed(m, d, b);
                lemma_follow_fixed(m, d, a + b);
            },
        }
    }
}

proof fn lemma_follow_one(m: Seq<(Seq<char>, Seq<char>)>, x: Seq<char>)
    ensures
        target_of(m, x) matches Some(t) ==> follow(m, x, 1) == t,
{
    if let Some(t) = target_of(m, x) {
        assert(follow(m, t, 0) == t);
    }
}

proof fn lemma_follow_fixed(m: Seq<(Seq<char>, Seq<char>)>, d: Seq<char>, n: nat)
    requires
        target_of(m, d) is None,
    ensures
        follow(m, d, n) == d,
    decreases n,
{
}

/// Once the renames end, following more of them stays at the end.
proof fn lemma_follow_after_end(m: Seq<(Seq<char>, Seq<char>)>, d: Seq<char>, n: nat, k: nat)
    requires
        chain_ends(m, d, n),
        n <= k,
    ensures
        follow(m, d, k) == follow(m, d, n),
{
    lemma_follow_add(m, d, n, (k - n) as nat);
    lemma_follow_fixed(m, follow(m, d, n), (k - n) as nat);
}

/// On a cycle the renames never end.
proof fn lemma_cycle_never_ends(m: Seq<(Seq<char>, Seq<char>)>, d: Seq<char>, p: nat, s: nat)
    requires
        on_cycle(m, d, p),
    ensures
        !chain_ends(m, d, s),
    decreases s,
{
    if s < p {
        if chain_ends(m, d, s) {
            lemma_follow_after_end(m, d, s, p);
        }
    } else {
        lemma_follow_add(m, d, p, (s - p) as nat);
        lemma_cycle_never_ends(m, d, p, (s - p) as nat);
        assert(p + (s - p) as nat == s);
    }
}

/// Two ends of the renames are the same domain.
proof fn lemma_single_end(m: Seq<(Seq<char>, Seq<char>)>, d: Seq<char>, a: nat, b: nat)
    requires
        chain_ends(m, d, a),
        chain_ends(m, d, b),
    ensures
        follow(m, d, a) == follow(m, d, b),
{
    if a <= b {
        lemma_follow_after_end(m, d, a, b);
    } else {
        lemma_follow_after_end(m, d, b, a);
    }
}

/// Following the renames a second time changes nothing: where the renames from `d` end, the
/// domain reached has no rename.
pub proof fn lemma_resolved_idempotent(m: Seq<(Seq<char>, Seq<char>)>, d: Seq<char>, n: nat)
    requires
        chain_ends(m, d, n),
    ensures
        resolved(m, d) == follow(m, d, n),
        resolved(m, resolved(m, d)) == resolved(m, d),
{
    let k = choose|k: nat| chain_ends(m, d, k);
    lemma_single_end(m, d, k, n);
    let e = follow(m, d, n);
    lemma_follow_fixed(m, e, 0);
    assert(chain_ends(m, e, 0));
    let j = choose|j: nat| chain_ends(m, e, j);
    lemma_follow_fixed(m, e, j);
}

/// Among `count` values below `n < count`, two are equal.
proof fn lemma_pigeonhole(f: spec_fn(int) -> int, count: int, n: int)
    requires
        0 <= n < count,
        forall|i: int| 0 <= i < count ==> 0 <= #[trigger] f(i) < n,
    ensures
        exists|i: int, j: int| 0 <= i < j < count && #[trigger] f(i) == #[trigger] f(j),
{
    if !(exists|i: int, j: int| 0 <= i < j < count && #[trigger] f(i) == #[trigger] f(j)) {
        let x = vstd::set_lib::set_int_range(0, count);
        vstd::set_lib::lemma_int_range(0, count);
        vstd::set_lib::lemma_int_range(0, n);
        assert(vstd::relations::injective_on(f, x)) by {
            assert forall|a: int, b: int| x.contains(a) && x.contains(b) && #[trigger] f(a) == #[trigger] f(b) implies a == b by {
                if a < b {
                    assert(0 <= a < b < count && f(a) == f(b));
                } else if b < a {
                    assert(0 <= b < a < count && f(b) == f(a));
                }
            }
        }
        vstd::set_lib::lemma_map_size(x, x.map(f), f);
        assert(x.map(f).subset_of(vstd::set_lib::set_int_range(0, n))) by {
            assert forall|y: int| x.map(f).contains(y) implies vstd::set_lib::set_int_range(0, n).contains(y) by {
                let a = choose|a: int| x.contains(a) && f(a) == y;
                assert(0 <= f(a) < n);
            }
        }
        vstd::set_lib::lemma_len_subset(x.map(f), vstd::set_lib::set_int_range(0, n));
    }
}

/// Once the renames return to a domain after `p` steps, they repeat every `p` steps.
proof fn lemma_follow_periodic(m: Seq<(Seq<char>, Seq<char>)>, d: Seq<char>, i: nat, p: nat, s: nat)
    requires
        p > 0,
        follow(m, d, i + p) == follow(m, d, i),
        s >= i + p,
    ensures
        follow(m, d, s) == follow(m, d, (s - p) as nat),
{
    lemma_follow_add(m, d, i + p, (s - i - p) as nat);
    lemma_follow_add(m, d, i, (s - i - p) as nat);
    assert(i + p + (s - i - p) as nat == s);
    assert(i + (s - i - p) as nat == (s - p) as nat);
}

/// Past a return, every domain reached is one of the `p` domains from step `i` on.
proof fn lemma_follow_in_loop(m: Seq<(Seq<char>, Seq<char>)>, d: Seq<char>, i: nat, p: nat, s: nat) -> (r: nat)
    requires
        p > 0,
        follow(m, d, i + p) == follow(m, d, i),
        s >= i,
    ensures
        i <= r < i + p,
        follow(m, d, s) == follow(m, d, r),
    decreases s,
{
    if s < i + p {
        s
    } else {
        lemma_follow_periodic(m, d, i, p, s);
        lemma_follow_in_loop(m, d, i, p, (s - p) as nat)
    }
}

/// On a cycle through `d` of length `q`, the renames come back to `d` at some step from
/// `bound` on.
proof fn lemma_return_after(m: Seq<(Seq<char>, Seq<char>)>, d: Seq<char>, q: nat, bound: nat) -> (r: nat)
    requires
        q > 0,
        follow(m, d, q) == d,
    ensures
        r >= bound,
        follow(m, d, r) == d,
    decreases bound,
{
    if bound <= q {
        q
    } else {
        let s = lemma_return_after(m, d, q, (bound - q) as nat);
        lemma_follow_add(m, d, s, q);
        s + q
    }
}

/// When the renames from `d` have a next domain for the first `n + 1` steps, with `n` the
/// number of renames, and do not come back to `d` within `n + 1` steps, `d` is not
/// resolvable: the renames run into a cycle that `d` is not on.
proof fn lemma_unresolvable(m: Seq<(Seq<char>, Seq<char>)>, d: Seq<char>)
    requires
        forall|j: nat| j <= m.len() ==> (#[trigger] target_of(m, follow(m, d, j))) is Some,
        forall|j: nat| 1 <= j <= m.len() + 1 ==> #[trigger] follow(m, d, j) != d,
    ensures
        !resolvable(m, d),
{
    let n = m.len() as int;
    let f = |k: int| match key_index(m, follow(m, d, k as nat)) {
        Some(x) => x,
        None => 0,
    };
    assert forall|k: int| 0 <= k < n + 1 implies 0 <= #[trigger] f(k) < n by {
        lemma_key_index_bounds(m, follow(m, d, k as nat));
        assert(target_of(m, follow(m, d, k as nat)) is Some);
    }
    lemma_pigeonhole(f, n + 1, n);
    let (i, j) = choose|i: int, j: int| 0 <= i < j < n + 1 && #[trigger] f(i) == #[trigger] f(j);
    lemma_key_index_bounds(m, follow(m, d, i as nat));
    lemma_key_index_bounds(m, follow(m, d, j as nat));
    assert(target_of(m, follow(m, d, i as nat)) is Some);
    assert(target_of(m, follow(m, d, j as nat)) is Some);
    let iu = i as nat;
    let p = (j - i) as nat;
    assert(iu + p == j as nat);
    assert(follow(m, d, iu + p) == follow(m, d, iu));
    assert forall|s: nat| !chain_ends(m, d, s) by {
        if s >= iu {
            let r = lemma_follow_in_loop(m, d, iu, p, s);
            assert(target_of(m, follow(m, d, r)) is Some);
        } else {
            assert(target_of(m, follow(m, d, s)) is Some);
        }
    }
    assert forall|q: nat| !on_cycle(m, d, q) by {
        if on_cycle(m, d, q) {
            let s = lemma_return_after(m, d, q, iu);
            let r = lemma_follow_in_loop(m, d, iu, p, s);
            if r >= 1 {
                assert(follow(m, d, r) == d);
            } else {
                assert(follow(m, d, j as nat) == follow(m, d, 0));
                assert(follow(m, d, 0) == d);
            }
        }
    }
}

fn string_eq(a: &String, b: &String) -> (r: bool)
    ensures
        r == (a@ == b@),
{
    a.eq(b)
}

/// Whether `d` starts with `#`.
fn starts_with_hash(d: &String) -> (r: bool)
    ensures
        r == is_comment(d@),
{
    let s = d.as_str();
    s.unicode_len() > 0 && s.get_char(0) == '#'
}

impl ConfusionDomains {
    /// The renames as values, in the order the domains were first renamed.
    pub closed spec fn view(&self) -> Seq<(Seq<char>, Seq<char>)> {
        renames_view(self.renames@)
    }

    /// No renames.
    pub fn new() -> (r: Self)
        ensures
            r@ == Seq::<(Seq<char>, Seq<char>)>::empty(),
    {
        let r = ConfusionDomains { renames: Vec::new() };
        assert(r@ =~= Seq::<(Seq<char>, Seq<char>)>::empty());
        r
    }

    /// The position of the rename of `d`.
    fn find(&self, d: &String) -> (r: Option<usize>)
        ensures
            match r {
                Some(i) => key_index(self@, d@) == Some(i as int) && i < self.renames@.len(),
                None => key_index(self@, d@) is None,
            },
    {
        let ghost v = self@;
        let mut i: usize = 0;
        while i < self.renames.len()
            invariant
                i <= self.renames@.len(),
                v == self@,
                forall|x: int| 0 <= x < i ==> v[x].0 != d@,
            decreases self.renames@.len() - i,
        {
            if string_eq(&self.renames[i].0, d) {
                proof {
                    lemma_key_index_first(v, d@, i as int);
                }
                return Some(i);
            }
            i = i + 1;
        }
        proof {
            lemma_key_index_absent(v, d@);
        }
        None
    }

    /// The domain `d` is renamed to, if any.
    pub fn target(&self, d: &String) -> (r: Option<String>)
        ensures
            match r {
                Some(t) => target_of(self@, d@) == Some(t@),
                None => target_of(self@, d@) is None,
            },
    {
        match self.find(d) {
            Some(i) => Some(self.renames[i].1.clone()),
            None => None,
        }
    }

    /// Renames `d` to `t`; returns the rename it replaces, if any.
    pub fn insert(&mut self, d: String, t: String) -> (r: Option<String>)
        ensures
            forall|x: Seq<char>|
                #[trigger] target_of(final(self)@, x) == if x == d@ {
                    Some(t@)
                } else {
                    target_of(old(self)@, x)
                },
            match r {
                Some(e) => target_of(old(self)@, d@) == Some(e@),
                None => target_of(old(self)@, d@) is None,
            },
    {
        let ghost v = self@;
        match self.find(&d) {
            Some(i) => {
                proof {
                    lemma_key_index_bounds(v, d@);
                }
                let (k, e) = self.renames.remove(i);
                self.renames.insert(i, (k, t));
                assert(self@ =~= v.update(i as int, (d@, t@)));
                assert forall|x: Seq<char>|
                    #[trigger] target_of(self@, x) == if x == d@ {
                        Some(t@)
                    } else {
                        target_of(v, x)
                    } by {
                    lemma_key_index_update(v, d@, t@, x);
                    lemma_key_index_bounds(v, x);
                }
                Some(e)
            },
            None => {
                let ghost dv = d@;
                let ghost tv = t@;
                self.renames.push((d, t));
                assert(self@ =~= v.push((dv, tv)));
                assert forall|x: Seq<char>|
                    #[trigger] target_of(self@, x) == if x == dv {
                        Some(tv)
                    } else {
                        target_of(v, x)
                    } by {
                    lemma_key_index_push(v, dv, tv, x);
                    lemma_key_index_bounds(v, x);
                }
                None
            },
        }
    }

    /// Where the renames from `domain` lead: to the domain where they end; or, if they lead
    /// back to `domain`, to `domain` itself. After ten renames the chain is checked for a loop
    /// back to `domain`.
    pub fn check_confusion_domain(&self, domain: &String) -> (r: String)
        requires
            resolvable(self@, domain@),
        ensures
            r@ == resolved(self@, domain@),
            forall|n: nat| chain_ends(self@, domain@, n) ==> r@ == follow(self@, domain@, n),
            (forall|n: nat| !chain_ends(self@, domain@, n)) ==> r@ == domain@,
    {
        let ghost m = self@;
        let ghost d = domain@;
        let ghost ends = exists|n: nat| chain_ends(m, d, n);
        let ghost end: nat = if ends {
            choose|n: nat| chain_ends(m, d, n)
        } else {
            0
        };
        let ghost period: nat = if ends {
            0
        } else {
            choose|n: nat| on_cycle(m, d, n)
        };
        proof {
            if !ends {
                assert(exists|n: nat| on_cycle(m, d, n));
            }
        }
        let mut curr = domain.clone();
        let mut loop_check: u8 = 10;
        let ghost mut steps: nat = 0;
        loop
            invariant
                m == self@,
                d == domain@,
                ends == (exists|n: nat| chain_ends(m, d, n)),
                ends ==> chain_ends(m, d, end),
                !ends ==> on_cycle(m, d, period),
                curr@ == follow(m, d, steps),
                loop_check == if steps < 10 {
                    10 - steps
                } else {
                    0
                },
                ends ==> steps <= end,
                !ends ==> steps < 10,
                steps > 0 ==> target_of(m, d) is Some,
            ensures
                chain_ends(m, d, steps),
                curr@ == follow(m, d, steps),
            decreases if ends {
                end - steps
            } else {
                10 - steps
            },
        {
            let next = match self.target(&curr) {
                None => break,
                Some(t) => t,
            };
            proof {
                lemma_follow_add(m, d, steps, 1);
                lemma_follow_one(m, curr@);
                if ends && steps == end {
                    assert(false);
                }
                if steps == 0 {
                    assert(target_of(m, d) is Some);
                }
            }
            curr = next;
            proof {
                steps = steps + 1;
            }
            if loop_check > 0 {
                loop_check = loop_check - 1;
                if loop_check == 0 {
                    let mut c = domain.clone();
                    let ghost mut j: nat = 0;
                    loop
                        invariant
                            m == self@,
                            d == domain@,
                            ends == (exists|n: nat| chain_ends(m, d, n)),
                            ends ==> chain_ends(m, d, end),
                            !ends ==> on_cycle(m, d, period),
                            target_of(m, d) is Some,
                            c@ == follow(m, d, j),
                            ends ==> j <= end,
                            !ends ==> j < period,
                        ensures
                            chain_ends(m, d, j),
                        decreases if ends {
                            end - j
                        } else {
                            period - j
                        },
                    {
                        let o = match self.target(&c) {
                            None => break,
                            Some(o) => o,
                        };
                        proof {
                            lemma_follow_add(m, d, j, 1);
                            lemma_follow_one(m, c@);
                            if ends && j == end {
                                assert(false);
                            }
                        }
                        if string_eq(&o, domain) {
                            proof {
                                assert(on_cycle(m, d, j + 1));
                                assert forall|n: nat| !chain_ends(m, d, n) by {
                                    lemma_cycle_never_ends(m, d, j + 1, n);
                                }
                            }
                            return o;
                        }
                        c = o;
                        proof {
                            j = j + 1;
                            if !ends && j == period {
                                assert(false);
                            }
                        }
                    }
                    proof {
                        if !ends {
                            assert(false);
                        }
                    }
                }
            }
        }
        proof {
            assert forall|n: nat| chain_ends(m, d, n) implies curr@ == follow(m, d, n) by {
                lemma_single_end(m, d, n, steps);
            }
        }
        curr
    }

    /// Whether `d` is resolvable: the renames from `d` end or lead back to `d`, which they do
    /// within one step more than there are renames if at all.
    pub fn resolves(&self, d: &String) -> (r: bool)
        ensures
            r == resolvable(self@, d@),
    {
        let ghost m = self@;
        let mut c = d.clone();
        let mut k: u128 = 0;
        let n = self.renames.len() as u128;
        while k <= n
            invariant
                m == self@,
                n == self.renames@.len(),
                n <= usize::MAX,
                c@ == follow(m, d@, k as nat),
                k > 0 ==> target_of(m, d@) is Some,
                k <= n + 1,
                forall|j: nat| j < k ==> (#[trigger] target_of(m, follow(m, d@, j))) is Some,
                forall|j: nat| 1 <= j <= k ==> #[trigger] follow(m, d@, j) != d@,
            decreases n + 1 - k,
        {
            let t = match self.target(&c) {
                None => {
                    assert(chain_ends(m, d@, k as nat));
                    return true;
                },
                Some(t) => t,
            };
            proof {
                lemma_follow_add(m, d@, k as nat, 1);
                lemma_follow_one(m, c@);
                if k == 0 {
                    assert(target_of(m, d@) is Some);
                }
            }
            if string_eq(&t, d) {
                assert(on_cycle(m, d@, (k + 1) as nat));
                return true;
            }
            c = t;
            k = k + 1;
        }
        proof {
            lemma_unresolvable(m, d@);
        }
        false
    }
}

/// The sequences of each domain, labelled with the domain the renames lead to (see
/// [`ConfusionDomains::check_confusion_domain`]).
pub fn label_sequences(domains: &ConfusionDomains, seqs: Vec<(String, Vec<Sequence>)>) -> (r: Vec<LabelledSequences>)
    requires
        forall|i: int| 0 <= i < seqs@.len() ==> resolvable(domains@, (#[trigger] seqs@[i]).0@),
    ensures
        r@.len() == seqs@.len(),
        forall|i: int|
            0 <= i < r@.len() ==> (#[trigger] r@[i]).true_domain@ == seqs@[i].0@ && r@[i].mapped_domain@
                == resolved(domains@, seqs@[i].0@) && r@[i].sequences@ == seqs@[i].1@,
{
    let ghost all = seqs@;
    let mut out: Vec<LabelledSequences> = Vec::new();
    let mut rest = seqs;
    let mut reversed: Vec<(String, Vec<Sequence>)> = Vec::new();
    while rest.len() > 0
        invariant
            reversed@.len() + rest@.len() == all.len(),
            rest@ == all.take(rest@.len() as int),
            forall|j: int| 0 <= j < reversed@.len() ==> #[trigger] reversed@[j] == all[all.len() - 1 - j],
        decreases rest@.len(),
    {
        let e = rest.pop().unwrap();
        reversed.push(e);
        assert(rest@ =~= all.take(rest@.len() as int));
    }
    while reversed.len() > 0
        invariant
            reversed@.len() + out@.len() == all.len(),
            forall|j: int| 0 <= j < reversed@.len() ==> #[trigger] reversed@[j] == all[all.len() - 1 - j],
            forall|i: int| 0 <= i < all.len() ==> resolvable(domains@, (#[trigger] all[i]).0@),
            forall|i: int|
                0 <= i < out@.len() ==> (#[trigger] out@[i]).true_domain@ == all[i].0@ && out@[i].mapped_domain@
                    == resolved(domains@, all[i].0@) && out@[i].sequences@ == all[i].1@,
        decreases reversed@.len(),
    {
        let (label, sequences) = reversed.pop().unwrap();
        assert((label, sequences) == all[out@.len() as int]);
        let mapped = domains.check_confusion_domain(&label);
        out.push(LabelledSequences { true_domain: label, mapped_domain: mapped, sequences });
    }
    out
}

/// The renames of the records that are not comments, a later record for a domain replacing
/// an earlier one; and the records that replaced a different rename (see
/// [`record_conflicts`]).
pub fn prepare_confusion_domains(records: Vec<ConfusionRecord>) -> (r: (ConfusionDomains, Vec<ConfusionConflict>))
    ensures
        forall|d: Seq<char>| #[trigger] target_of(r.0@, d) == record_target(records_view(records@), d),
        r.1@.map_values(|c: ConfusionConflict| conflict_view(c)) == record_conflicts(records_view(records@)),
{
    let ghost rv = records_view(records@);
    let mut domains = ConfusionDomains::new();
    let mut conflicts: Vec<ConfusionConflict> = Vec::new();
    let mut i: usize = 0;
    while i < records.len()
        invariant
            i <= records@.len(),
            rv == records_view(records@),
            forall|d: Seq<char>| #[trigger] target_of(domains@, d) == record_target(rv.take(i as int), d),
            conflicts@.map_values(|c: ConfusionConflict| conflict_view(c)) == record_conflicts(rv.take(i as int)),
        decreases records@.len() - i,
    {
        let record = &records[i];
        let ghost before = rv.take(i as int);
        assert(rv.take(i + 1).drop_last() =~= before);
        assert(rv.take(i + 1).last() == record_view(*record));
        if starts_with_hash(&record.domain) {
            assert forall|d: Seq<char>| #[trigger] target_of(domains@, d) == record_target(rv.take(i + 1), d) by {
                assert(target_of(domains@, d) == record_target(before, d));
            }
        } else {
            let ghost conflicts_before = conflicts@;
            let replaced = domains.insert(record.domain.clone(), record.is_similar_to.clone());
            assert forall|d: Seq<char>| #[trigger] target_of(domains@, d) == record_target(rv.take(i + 1), d) by {}
            if let Some(existing) = replaced {
                let ghost ev = existing@;
                if !string_eq(&existing, &record.is_similar_to) {
                    conflicts.push(
                        ConfusionConflict {
                            domain: record.domain.clone(),
                            existing,
                            replacement: record.is_similar_to.clone(),
                        },
                    );
                    assert(conflicts@.map_values(|c: ConfusionConflict| conflict_view(c)) =~= conflicts_before.map_values(
                        |c: ConfusionConflict| conflict_view(c),
                    ).push((record.domain@, ev, record.is_similar_to@)));
                }
            }
        }
        i = i + 1;
    }
    assert(rv.take(records@.len() as int) =~= rv);
    (domains, conflicts)
}

} // verus!
