use vstd::prelude::*;
use crate::candidate::{has_text, texts};
use crate::probe::ProbeResult;
use crate::status::DomainStatus;

verus! {

/// Strict lexicographic order of texts by character, the order of `String`.
pub open spec fn text_lt(a: Seq<char>, b: Seq<char>) -> bool
    decreases a.len(),
{
    if b.len() == 0 {
        false
    } else if a.len() == 0 {
        true
    } else if a[0] != b[0] {
        a[0] < b[0]
    } else {
        text_lt(a.drop_first(), b.drop_first())
    }
}

/// The texts of `v` are in strictly increasing order.
pub open spec fn strictly_sorted(v: Seq<String>) -> bool {
    forall|a: int, b: int| 0 <= a < b < v.len() ==> text_lt(#[trigger] v[a]@, #[trigger] v[b]@)
}

/// The domains of the results that were found available.
pub open spec fn available_set(log: Seq<ProbeResult>) -> Set<Seq<char>> {
    Set::new(|d: Seq<char>| exists|k: int| 0 <= k < log.len() && #[trigger] log[k].status == DomainStatus::Available && log[k].domain@ == d)
}

pub proof fn lemma_text_lt_irreflexive(a: Seq<char>)
    ensures
        !text_lt(a, a),
    decreases a.len(),
{
    if a.len() > 0 {
        lemma_text_lt_irreflexive(a.drop_first());
    }
}

pub proof fn lemma_text_lt_transitive(a: Seq<char>, b: Seq<char>, c: Seq<char>)
    requires
        text_lt(a, b),
        text_lt(b, c),
    ensures
        text_lt(a, c),
    decreases a.len(),
{
    if a.len() > 0 && a[0] == b[0] && b[0] == c[0] {
        lemma_text_lt_transitive(a.drop_first(), b.drop_first(), c.drop_first());
    }
}

pub proof fn lemma_text_lt_total(a: Seq<char>, b: Seq<char>)
    requires
        a != b,
    ensures
        text_lt(a, b) || text_lt(b, a),
    decreases a.len(),
{
    if a.len() > 0 && b.len() > 0 && a[0] == b[0] {
        if a.drop_first() == b.drop_first() {
            assert(a =~= seq![a[0]] + a.drop_first());
            assert(b =~= seq![b[0]] + b.drop_first());
        }
        lemma_text_lt_total(a.drop_first(), b.drop_first());
    } else if a.len() == 0 && b.len() == 0 {
        assert(a =~= b);
    }
}

/// Whether `a` comes strictly before `b`.
pub fn text_less(a: &str, b: &str) -> (r: bool)
    ensures
        r == text_lt(a@, b@),
{
    let na = a.unicode_len();
    let nb = b.unicode_len();
    let mut i: usize = 0;
    assert(a@.skip(0) =~= a@);
    assert(b@.skip(0) =~= b@);
    while i < na && i < nb
        invariant
            na == a@.len(),
            nb == b@.len(),
            i <= na,
            i <= nb,
            text_lt(a@, b@) == text_lt(a@.skip(i as int), b@.skip(i as int)),
        decreases na - i,
    {
        let x = a.get_char(i);
        let y = b.get_char(i);
        assert(a@.skip(i as int)[0] == x && b@.skip(i as int)[0] == y);
        if x != y {
            return x < y;
        }
        assert(a@.skip(i as int).drop_first() =~= a@.skip(i + 1));
        assert(b@.skip(i as int).drop_first() =~= b@.skip(i + 1));
        i = i + 1;
    }
    i == na && i < nb
}

proof fn lemma_available_push(log: Seq<ProbeResult>, r: ProbeResult)
    ensures
        available_set(log.push(r)) == if r.status == DomainStatus::Available {
            available_set(log).insert(r.domain@)
        } else {
            available_set(log)
        },
{
    let l2 = log.push(r);
    assert forall|d: Seq<char>| available_set(l2).contains(d) == (if r.status == DomainStatus::Available {
        available_set(log).insert(r.domain@)
    } else {
        available_set(log)
    }).contains(d) by {
        if available_set(log).contains(d) {
            let k = choose|k: int| 0 <= k < log.len() && #[trigger] log[k].status == DomainStatus::Available && log[k].domain@ == d;
            assert(l2[k] == log[k]);
        }
        if available_set(l2).contains(d) {
            let k = choose|k: int| 0 <= k < l2.len() && #[trigger] l2[k].status == DomainStatus::Available && l2[k].domain@ == d;
            if k < log.len() {
                assert(l2[k] == log[k]);
            }
        }
        if r.status == DomainStatus::Available && d == r.domain@ {
            assert(l2[log.len() as int] == r);
        }
    }
    if r.status == DomainStatus::Available {
        assert(available_set(l2) =~= available_set(log).insert(r.domain@));
    } else {
        assert(available_set(l2) =~= available_set(log));
    }
}

/// Recording an available domain a second time leaves the set of available
/// domains as it was; two available results for one domain make a set of
/// one element.
pub proof fn lemma_available_idempotent(log: Seq<ProbeResult>, r1: ProbeResult, r2: ProbeResult)
    requires
        r1.status == DomainStatus::Available,
        r2.status == DomainStatus::Available,
        r1.domain@ == r2.domain@,
    ensures
        available_set(log.push(r1).push(r2)) == available_set(log.push(r1)),
        available_set(seq![r1, r2]) == set![r1.domain@],
        available_set(seq![r1, r2]).len() == 1,
{
    lemma_available_push(log, r1);
    lemma_available_push(log.push(r1), r2);
    let empty = Seq::<ProbeResult>::empty();
    assert(available_set(empty) =~= Set::<Seq<char>>::empty());
    lemma_available_push(empty, r1);
    lemma_available_push(empty.push(r1), r2);
    assert(empty.push(r1).push(r2) =~= seq![r1, r2]);
    assert(set![r1.domain@] =~= Set::<Seq<char>>::empty().insert(r1.domain@));
    assert(set![r1.domain@].len() == 1) by {
        Set::<Seq<char>>::empty().insert(r1.domain@);
    }
}

/// Collects every probe result in order of arrival, and the available
/// domains, each once and in increasing order.
pub struct ResultAggregator {
    results: Vec<ProbeResult>,
    available: Vec<String>,
}

impl ResultAggregator {
    /// Every result recorded so far, in order.
    pub closed spec fn log(&self) -> Seq<ProbeResult> {
        self.results@
    }

    pub closed spec fn wf(&self) -> bool {
        &&& strictly_sorted(self.available@)
        &&& forall|d: Seq<char>| has_text(self.available@, d) <==> available_set(self.results@).contains(d)
    }

    pub fn new() -> (a: ResultAggregator)
        ensures
            a.wf(),
            a.log() == Seq::<ProbeResult>::empty(),
    {
        let a = ResultAggregator { results: Vec::new(), available: Vec::new() };
        assert(available_set(a.results@) =~= Set::<Seq<char>>::empty());
        a
    }

    /// Appends a result to the log; an available one adds its domain to the
    /// available set.
    pub fn record(&mut self, r: ProbeResult)
        requires
            old(self).wf(),
        ensures
            final(self).wf(),
            final(self).log() == old(self).log().push(r),
    {
        proof {
            lemma_available_push(self.results@, r);
        }
        if r.status == DomainStatus::Available {
            insert_sorted(&mut self.available, r.domain.clone());
        }
        self.results.push(r);
    }

    /// The number of results recorded.
    pub fn len(&self) -> (n: usize)
        ensures
            n == self.log().len(),
    {
        self.results.len()
    }

    /// The recorded results, in order of arrival.
    pub fn results(&self) -> (r: &Vec<ProbeResult>)
        ensures
            r@ == self.log(),
    {
        &self.results
    }

    /// The available domains, each once, in increasing order.
    pub fn available_sorted(&self) -> (r: &Vec<String>)
        requires
            self.wf(),
        ensures
            strictly_sorted(r@),
            texts(r@).to_set() == available_set(self.log()),
    {
        proof {
            assert forall|d: Seq<char>| texts(self.available@).to_set().contains(d) <==> available_set(self.log()).contains(d) by {
                if texts(self.available@).contains(d) {
                    let k = choose|k: int| 0 <= k < texts(self.available@).len() && texts(self.available@)[k] == d;
                    assert(self.available@[k]@ == d);
                }
                if has_text(self.available@, d) {
                    let k = choose|k: int| 0 <= k < self.available@.len() && #[trigger] self.available@[k]@ == d;
                    assert(texts(self.available@)[k] == d);
                }
            }
            assert(texts(self.available@).to_set() =~= available_set(self.log()));
        }
        &self.available
    }

    /// The number of distinct available domains.
    pub fn available_count(&self) -> (n: usize)
        requires
            self.wf(),
        ensures
            n == available_set(self.log()).len(),
    {
        let v = self.available_sorted();
        proof {
            let t = texts(v@);
            assert forall|a: int, b: int| 0 <= a < t.len() && 0 <= b < t.len() && a != b implies t[a] != t[b] by {
                if a < b {
                    assert(text_lt(v@[a]@, v@[b]@));
                    lemma_text_lt_irreflexive(t[a]);
                } else {
                    assert(text_lt(v@[b]@, v@[a]@));
                    lemma_text_lt_irreflexive(t[a]);
                }
            }
            t.unique_seq_to_set();
        }
        v.len()
    }
}

/// Adds `d` to a strictly sorted vector unless its text is already there.
fn insert_sorted(v: &mut Vec<String>, d: String)
    requires
        strictly_sorted(old(v)@),
    ensures
        strictly_sorted(final(v)@),
        forall|s: Seq<char>| has_text(final(v)@, s) <==> (has_text(old(v)@, s) || s == d@),
{
    let mut i: usize = 0;
    while i < v.len() && text_less(v[i].as_str(), d.as_str())
        invariant
            v@ == old(v)@,
            i <= v@.len(),
            forall|k: int| 0 <= k < i ==> text_lt(#[trigger] v@[k]@, d@),
        decreases v.len() - i,
    {
        i = i + 1;
    }
    if i < v.len() && v[i] == d {
        assert(v@[i as int]@ == d@);
        assert(has_text(v@, d@));
        return;
    }
    let ghost old_v = v@;
    assert(old_v == old(v)@);
    proof {
        if i < v.len() {
            lemma_text_lt_total(v@[i as int]@, d@);
        }
    }
    v.insert(i, d);
    proof {
        assert forall|a: int, b: int| 0 <= a < b < v@.len() implies text_lt(#[trigger] v@[a]@, #[trigger] v@[b]@) by {
            if b < i {
                assert(v@[a] == old_v[a] && v@[b] == old_v[b]);
            } else if b == i {
                assert(v@[a] == old_v[a]);
            } else if a == i {
                assert(v@[b] == old_v[b - 1]);
                if b - 1 > i {
                    lemma_text_lt_transitive(d@, old_v[i as int]@, old_v[b - 1]@);
                }
            } else if a < i {
                assert(v@[a] == old_v[a] && v@[b] == old_v[b - 1]);
                if b - 1 >= i as int {
                    lemma_text_lt_transitive(old_v[a]@, d@, old_v[i as int]@);
                    if b - 1 > i {
                        lemma_text_lt_transitive(old_v[a]@, old_v[i as int]@, old_v[b - 1]@);
                    }
                }
            } else {
                assert(v@[a] == old_v[a - 1] && v@[b] == old_v[b - 1]);
            }
        }
        assert(v@ == old_v.insert(i as int, d));
        assert forall|s: Seq<char>| has_text(v@, s) implies (has_text(old_v, s) || s == d@) by {
            if has_text(v@, s) {
                let k = choose|k: int| 0 <= k < v@.len() && #[trigger] v@[k]@ == s;
                if k < i {
                    assert(v@[k] == old_v[k]);
                    assert(old_v[k]@ == s);
                } else if k > i {
                    assert(v@[k] == old_v[k - 1]);
                    assert(old_v[k - 1]@ == s);
                }
            }
        }
        assert forall|s: Seq<char>| (has_text(old_v, s) || s == d@) implies has_text(v@, s) by {
            if has_text(old_v, s) {
                let k = choose|k: int| 0 <= k < old_v.len() && #[trigger] old_v[k]@ == s;
                if k < i {
                    assert(v@[k] == old_v[k]);
                    assert(v@[k]@ == s);
                } else {
                    assert(v@[k + 1] == old_v[k]);
                    assert(v@[k + 1]@ == s);
                }
            }
            if s == d@ {
                assert(v@[i as int]@ == d@);
            }
        }
        assert(forall|s: Seq<char>| has_text(v@, s) <==> (has_text(old(v)@, s) || s == d@));
    }
}

} // verus!
