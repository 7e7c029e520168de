use vstd::prelude::*;
use crate::candidate::{distinct_texts, generate_domains, has_text, is_candidate};
use crate::pattern::{generate_repeat_pattern_domains, is_repeat_pattern};
use crate::aggregate::{available_set, strictly_sorted, ResultAggregator};
use crate::candidate::texts;
use crate::dispatch::{DispatchAction, DispatchEvent, Dispatcher};
use crate::probe::ProbeResult;

verus! {

/// Whether a label belongs to a scan: every candidate of one to four symbols
/// in a full scan; otherwise those of one to three symbols and the repeat
/// patterns.
pub open spec fn in_scan(s: Seq<char>, full_scan: bool, letters_only: bool) -> bool {
    ||| is_candidate(s, letters_only) && (full_scan || s.len() <= 3)
    ||| !full_scan && is_repeat_pattern(s, letters_only)
}

proof fn lemma_append_texts(x: Seq<String>, y: Seq<String>)
    requires
        distinct_texts(x),
        distinct_texts(y),
        forall|a: int, b: int| 0 <= a < x.len() && 0 <= b < y.len() ==> #[trigger] x[a]@ != #[trigger] y[b]@,
    ensures
        distinct_texts(x + y),
        forall|s: Seq<char>| #[trigger] has_text(x + y, s) <==> has_text(x, s) || has_text(y, s),
        forall|k: int| 0 <= k < x.len() ==> (x + y)[k] == x[k],
        forall|k: int| 0 <= k < y.len() ==> (x + y)[x.len() + k] == y[k],
{
    let z = x + y;
    assert forall|a: int, b: int| 0 <= a < b < z.len() implies #[trigger] z[a]@ != #[trigger] z[b]@ by {
        if b < x.len() {
            assert(z[a] == x[a] && z[b] == x[b]);
        } else if a < x.len() {
            assert(z[a] == x[a] && z[b] == y[b - x.len()]);
        } else {
            assert(z[a] == y[a - x.len()] && z[b] == y[b - x.len()]);
        }
    }
    assert forall|s: Seq<char>| #[trigger] has_text(z, s) <==> has_text(x, s) || has_text(y, s) by {
        if has_text(z, s) {
            let k = choose|k: int| 0 <= k < z.len() && #[trigger] z[k]@ == s;
            if k < x.len() {
                assert(x[k] == z[k]);
            } else {
                assert(y[k - x.len()] == z[k]);
            }
        }
        if has_text(x, s) {
            let k = choose|k: int| 0 <= k < x.len() && #[trigger] x[k]@ == s;
            assert(z[k] == x[k]);
        }
        if has_text(y, s) {
            let k = choose|k: int| 0 <= k < y.len() && #[trigger] y[k]@ == s;
            assert(z[x.len() + k] == y[k]);
        }
    }
}

/// Every label a scan probes, each once: the candidates of each length up
/// to four (full scan) or three, then, outside a full scan, the repeat
/// patterns.
pub fn scan_candidates(full_scan: bool, letters_only: bool) -> (r: Vec<String>)
    ensures
        forall|k: int| 0 <= k < r@.len() ==> in_scan(#[trigger] r@[k]@, full_scan, letters_only),
        forall|s: Seq<char>| #[trigger] in_scan(s, full_scan, letters_only) ==> has_text(r@, s),
        distinct_texts(r@),
{
    let max_length: usize = if full_scan { 4 } else { 3 };
    let mut r: Vec<String> = Vec::new();
    let mut length: usize = 1;
    while length <= max_length
        invariant
            max_length == if full_scan { 4usize } else { 3usize },
            1 <= length <= max_length + 1,
            forall|k: int| 0 <= k < r@.len() ==> is_candidate(#[trigger] r@[k]@, letters_only) && r@[k]@.len() < length,
            forall|s: Seq<char>| #[trigger] is_candidate(s, letters_only) && s.len() < length ==> has_text(r@, s),
            distinct_texts(r@),
        decreases max_length + 1 - length,
    {
        let mut g = generate_domains(length, letters_only);
        let ghost x = r@;
        let ghost y = g@;
        proof {
            lemma_append_texts(x, y);
        }
        r.append(&mut g);
        proof {
            assert forall|k: int| 0 <= k < r@.len() implies is_candidate(#[trigger] r@[k]@, letters_only) && r@[k]@.len() < length + 1 by {
                if k >= x.len() {
                    assert(r@[k] == y[k - x.len()]);
                }
            }
            assert forall|s: Seq<char>| #[trigger] is_candidate(s, letters_only) && s.len() < length + 1 implies has_text(r@, s) by {
                if s.len() == length {
                    assert(has_text(y, s));
                } else {
                    assert(has_text(x, s));
                }
                assert(has_text(x + y, s));
            }
        }
        length = length + 1;
    }
    if !full_scan {
        let mut g = generate_repeat_pattern_domains(letters_only);
        let ghost x = r@;
        let ghost y = g@;
        proof {
            assert forall|a: int, b: int| 0 <= a < x.len() && 0 <= b < y.len() implies #[trigger] x[a]@ != #[trigger] y[b]@ by {
                assert(x[a]@.len() < 4);
                assert(is_repeat_pattern(y[b]@, letters_only));
            }
            lemma_append_texts(x, y);
        }
        r.append(&mut g);
        proof {
            assert forall|k: int| 0 <= k < r@.len() implies in_scan(#[trigger] r@[k]@, full_scan, letters_only) by {
                if k >= x.len() {
                    assert(r@[k] == y[k - x.len()]);
                }
            }
            assert forall|s: Seq<char>| #[trigger] in_scan(s, full_scan, letters_only) implies has_text(r@, s) by {
                if is_candidate(s, letters_only) && s.len() <= 3 {
                    assert(has_text(x, s));
                } else {
                    assert(has_text(y, s));
                }
                assert(has_text(x + y, s));
            }
        }
    } else {
        assert forall|s: Seq<char>| #[trigger] in_scan(s, full_scan, letters_only) implies has_text(r@, s) by {
            assert(is_candidate(s, letters_only));
        }
    }
    r
}

/// The first line of the available-domains report.
pub open spec fn report_title() -> Seq<char> {
    "# 可用域名列表\n"@
}

/// The start of the second line, which the scan time follows.
pub open spec fn report_time_label() -> Seq<char> {
    "# 扫描时间: "@
}

/// One line per domain, in order.
pub open spec fn report_lines(ds: Seq<Seq<char>>) -> Seq<char>
    decreases ds.len(),
{
    if ds.len() == 0 {
        Seq::empty()
    } else {
        report_lines(ds.drop_last()) + ds.last().push('\n')
    }
}

/// The available-domains report: a title, the scan time, a blank line, then
/// the domains one per line.
pub open spec fn report_text(ds: Seq<Seq<char>>, scan_time: Seq<char>) -> Seq<char> {
    report_title() + report_time_label() + scan_time + seq!['\n', '\n'] + report_lines(ds)
}

/// The text of the available-domains report.
pub fn available_report(domains: &Vec<String>, scan_time: &str) -> (r: String)
    ensures
        r@ == report_text(texts(domains@), scan_time@),
{
    let mut r = String::from_str("# 可用域名列表\n");
    r.append("# 扫描时间: ");
    r.append(scan_time);
    r.append("\n\n");
    proof {
        reveal_strlit("\n\n");
        reveal_strlit("\n");
    }
    let mut i: usize = 0;
    while i < domains.len()
        invariant
            i <= domains@.len(),
            r@ == report_title() + report_time_label() + scan_time@ + seq!['\n', '\n'] + report_lines(texts(domains@.take(i as int))),
        decreases domains.len() - i,
    {
        let ghost before = r@;
        r.append(domains[i].as_str());
        r.append("\n");
        proof {
            reveal_strlit("\n");
            let t = texts(domains@.take(i as int + 1));
            assert(t.drop_last() =~= texts(domains@.take(i as int)));
            assert(t.last() == domains@[i as int]@);
            assert(report_lines(t) == report_lines(t.drop_last()) + t.last().push('\n'));
            assert(r@ =~= before + domains@[i as int]@.push('\n'));
            assert(r@ =~= report_title() + report_time_label() + scan_time@ + seq!['\n', '\n'] + report_lines(t));
        }
        i = i + 1;
    }
    assert(domains@.take(domains@.len() as int) =~= domains@);
    r
}

/// A scan in progress: the labels to probe, the admission control, and the
/// results collected so far.
pub struct LiDomainScanner {
    candidates: Vec<String>,
    dispatcher: Dispatcher,
    results: ResultAggregator,
}

impl LiDomainScanner {
    pub closed spec fn candidates(&self) -> Seq<String> {
        self.candidates@
    }

    pub closed spec fn dispatcher(&self) -> Dispatcher {
        self.dispatcher
    }

    /// Every result recorded so far, in order of arrival.
    pub closed spec fn log(&self) -> Seq<ProbeResult> {
        self.results.log()
    }

    pub closed spec fn wf(&self) -> bool {
        &&& self.dispatcher.wf()
        &&& self.dispatcher.total == self.candidates@.len()
        &&& self.results.wf()
        &&& self.results.log().len() == self.dispatcher.completed
    }

    /// A scan of the given labels with at most `workers` probes at once.
    pub fn new(workers: usize, candidates: Vec<String>) -> (s: LiDomainScanner)
        requires
            workers > 0,
        ensures
            s.wf(),
            s.candidates() == candidates@,
            s.dispatcher() == Dispatcher::new_spec(workers, candidates@.len() as usize),
            s.log() == Seq::<ProbeResult>::empty(),
    {
        let total = candidates.len();
        LiDomainScanner { candidates, dispatcher: Dispatcher::new(workers, total), results: ResultAggregator::new() }
    }

    /// A scan of every label that `scan_candidates` gives.
    pub fn for_scan(workers: usize, full_scan: bool, letters_only: bool) -> (s: LiDomainScanner)
        requires
            workers > 0,
        ensures
            s.wf(),
            forall|k: int| 0 <= k < s.candidates().len() ==> in_scan(#[trigger] s.candidates()[k]@, full_scan, letters_only),
            forall|t: Seq<char>| #[trigger] in_scan(t, full_scan, letters_only) ==> has_text(s.candidates(), t),
            distinct_texts(s.candidates()),
            s.dispatcher() == Dispatcher::new_spec(workers, s.candidates().len() as usize),
            s.log() == Seq::<ProbeResult>::empty(),
    {
        LiDomainScanner::new(workers, scan_candidates(full_scan, letters_only))
    }

    /// The number of labels of the scan.
    pub fn total(&self) -> (n: usize)
        ensures
            n == self.candidates().len(),
    {
        self.candidates.len()
    }

    /// The label at position `i`.
    pub fn candidate(&self, i: usize) -> (c: &String)
        requires
            i < self.candidates().len(),
        ensures
            *c == self.candidates()[i as int],
    {
        &self.candidates[i]
    }

    pub fn next_action(&self) -> (a: DispatchAction)
        ensures
            a == self.dispatcher().action_of(),
    {
        self.dispatcher.next_action()
    }

    /// The probe asked for by `Launch` was started.
    pub fn launched(&mut self)
        requires
            old(self).wf(),
        ensures
            final(self).wf(),
            final(self).dispatcher() == old(self).dispatcher().after(DispatchEvent::Launched),
            final(self).candidates() == old(self).candidates(),
            final(self).log() == old(self).log(),
    {
        self.dispatcher.apply(DispatchEvent::Launched);
    }

    /// The submission delay has passed.
    pub fn delay_elapsed(&mut self)
        requires
            old(self).wf(),
        ensures
            final(self).wf(),
            final(self).dispatcher() == old(self).dispatcher().after(DispatchEvent::DelayElapsed),
            final(self).candidates() == old(self).candidates(),
            final(self).log() == old(self).log(),
    {
        self.dispatcher.apply(DispatchEvent::DelayElapsed);
    }

    /// The number of probes started and not yet recorded.
    pub fn in_flight(&self) -> (n: usize)
        ensures
            n == self.dispatcher().in_flight,
    {
        self.dispatcher.in_flight
    }

    /// A running probe reported `r`, a success or a failure alike: it is
    /// logged and its slot is freed.
    pub fn record(&mut self, r: ProbeResult)
        requires
            old(self).wf(),
            old(self).dispatcher().in_flight > 0,
        ensures
            final(self).wf(),
            final(self).dispatcher() == old(self).dispatcher().after(DispatchEvent::ProbeFinished(r.status)),
            final(self).candidates() == old(self).candidates(),
            final(self).log() == old(self).log().push(r),
    {
        let status = r.status;
        self.results.record(r);
        self.dispatcher.apply(DispatchEvent::ProbeFinished(status));
    }

    /// The recorded results, in order of arrival.
    pub fn results(&self) -> (r: &Vec<ProbeResult>)
        ensures
            r@ == self.log(),
    {
        self.results.results()
    }

    /// The available domains, each once, in increasing order.
    pub fn available_sorted(&self) -> (r: &Vec<String>)
        requires
            self.wf(),
        ensures
            strictly_sorted(r@),
            texts(r@).to_set() == available_set(self.log()),
    {
        self.results.available_sorted()
    }

    /// The number of distinct available domains.
    pub fn available_count(&self) -> (n: usize)
        requires
            self.wf(),
        ensures
            n == available_set(self.log()).len(),
    {
        self.results.available_count()
    }
}

/// When a scan is finished, every label was probed and the log holds exactly
/// one result per label.
pub proof fn lemma_finished_scan_is_complete(s: LiDomainScanner)
    requires
        s.wf(),
        s.dispatcher().action_of() == DispatchAction::Finished,
    ensures
        s.dispatcher().next == s.candidates().len(),
        s.log().len() == s.candidates().len(),
{
    crate::dispatch::lemma_finished_is_complete(s.dispatcher());
    assert(s.log().len() == s.dispatcher().completed);
}

/// A probe that failed is logged like any other result and frees its slot
/// in the same way, so the next label is launched when one is left.
pub proof fn lemma_failure_does_not_stop_scan(
    s: LiDomainScanner,
    failed: ProbeResult,
    other: ProbeResult,
    t: LiDomainScanner,
)
    requires
        s.wf(),
        s.dispatcher().in_flight > 0,
        !s.dispatcher().pacing,
        s.dispatcher().next < s.candidates().len(),
        failed.status == crate::status::DomainStatus::Error,
        t.wf(),
        t.dispatcher() == s.dispatcher().after(DispatchEvent::ProbeFinished(failed.status)),
        t.log() == s.log().push(failed),
    ensures
        t.log().last() == failed,
        t.dispatcher() == s.dispatcher().after(DispatchEvent::ProbeFinished(other.status)),
        t.dispatcher().action_of() == DispatchAction::Launch(s.dispatcher().next),
{
    crate::dispatch::lemma_failure_keeps_dispatching(s.dispatcher(), other.status);
}

} // verus!
