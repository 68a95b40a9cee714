//! The verdict stream: the log of verdicts that nothing enters twice, and what
//! a consumer has still to reconcile.
use vstd::prelude::*;

use crate::decider::{one, outcome};
use crate::interface::VerdictEvent;
use crate::sorted::StrSet;
use crate::text::{filled_lines, filled_lines_of, texts};

verus! {

// ---------------------------------------------------------------- the decider

#[derive(Clone, Debug, PartialEq, Eq, Structural)]
pub enum LogEvent {
    VerdictAppended,
    DeliverableReconciled,
}

#[derive(Clone, Debug, PartialEq, Eq, Structural)]
pub enum LogCommand {
    /// `already_logged`: a verdict for this bundle is already there.
    Append { already_logged: bool },
    Reconcile,
}

#[derive(Clone, Debug, PartialEq, Eq, Structural)]
pub struct LogState {
    pub pending: i64,
}

impl Default for LogState {
    fn default() -> (r: Self)
        ensures
            r.pending == 0,
    {
        LogState { pending: 0 }
    }
}

impl LogState {
    pub open spec fn evolved(self, e: LogEvent) -> LogState {
        match e {
            LogEvent::VerdictAppended => LogState { pending: (self.pending + 1) as i64 },
            LogEvent::DeliverableReconciled => LogState { pending: 0 },
        }
    }

    pub open spec fn decided(self, c: LogCommand) -> Result<Seq<LogEvent>, Seq<char>> {
        match c {
            LogCommand::Append { already_logged } => if already_logged {
                Err("inv-idempotent-append"@)
            } else {
                Ok(seq![LogEvent::VerdictAppended])
            },
            LogCommand::Reconcile => if self.pending > 0 {
                Ok(seq![LogEvent::DeliverableReconciled])
            } else {
                Err("inv-nothing-to-reconcile"@)
            },
        }
    }

    pub fn evolve(&mut self, e: &LogEvent)
        requires
            *e == LogEvent::VerdictAppended ==> old(self).pending < i64::MAX,
        ensures
            *final(self) == old(self).evolved(*e),
    {
        match e {
            LogEvent::VerdictAppended => {
                self.pending += 1;
            },
            LogEvent::DeliverableReconciled => {
                self.pending = 0;
            },
        }
    }

    /// A verdict is appended once, and there is something to reconcile only while
    /// verdicts are pending.
    pub fn decide(&self, c: &LogCommand) -> (r: Result<Vec<LogEvent>, &'static str>)
        ensures
            outcome(r) == self.decided(*c),
    {
        match c {
            LogCommand::Append { already_logged } => {
                if *already_logged {
                    Err("inv-idempotent-append")
                } else {
                    Ok(one(LogEvent::VerdictAppended))
                }
            },
            LogCommand::Reconcile => {
                if self.pending > 0 {
                    Ok(one(LogEvent::DeliverableReconciled))
                } else {
                    Err("inv-nothing-to-reconcile")
                }
            },
        }
    }
}

// ------------------------------------------------------------ reconciliation

/// How many verdicts were appended and how many reconciliations there were.
#[derive(Clone, Debug, PartialEq, Eq, Structural)]
pub struct ReconciliationView {
    pub appended: i64,
    pub reconciled: i64,
}

impl Default for ReconciliationView {
    fn default() -> (r: Self)
        ensures
            r == (ReconciliationView { appended: 0, reconciled: 0 }),
    {
        ReconciliationView { appended: 0, reconciled: 0 }
    }
}

impl ReconciliationView {
    pub open spec fn counted(self, e: LogEvent) -> (int, int) {
        match e {
            LogEvent::VerdictAppended => (self.appended + 1, self.reconciled as int),
            LogEvent::DeliverableReconciled => (self.appended as int, self.reconciled + 1),
        }
    }

    pub fn apply(&mut self, e: &LogEvent)
        requires
            old(self).counted(*e).0 <= i64::MAX,
            old(self).counted(*e).1 <= i64::MAX,
        ensures
            final(self).appended == old(self).counted(*e).0,
            final(self).reconciled == old(self).counted(*e).1,
    {
        match e {
            LogEvent::VerdictAppended => {
                self.appended += 1;
            },
            LogEvent::DeliverableReconciled => {
                self.reconciled += 1;
            },
        }
    }

    /// What was appended less what was reconciled.
    pub fn backlog(&self) -> (r: i64)
        requires
            i64::MIN <= self.appended - self.reconciled <= i64::MAX,
        ensures
            r == self.appended - self.reconciled,
    {
        self.appended - self.reconciled
    }
}

// ----------------------------------------------------------- the durable log

/// The bundle hashes of some verdicts.
pub open spec fn hashes(verdicts: Seq<VerdictEvent>) -> Seq<Seq<char>> {
    verdicts.map_values(|v: VerdictEvent| v.bundle_hash@)
}

/// An append-only log of verdicts in which a bundle hash occurs at most once. It
/// holds the hashes that are in the log; where the entries lie is the caller's
/// business.
pub struct DurableLog {
    seen: StrSet,
}

impl View for DurableLog {
    type V = Set<Seq<char>>;

    closed spec fn view(&self) -> Set<Seq<char>> {
        self.seen@
    }
}

impl DurableLog {
    /// Opens the log over the entries that it holds already.
    pub fn open(entries: &Vec<VerdictEvent>) -> (r: Self)
        ensures
            r@ == hashes(entries@).to_set(),
    {
        let mut seen: StrSet = StrSet::new();
        let mut i: usize = 0;
        while i < entries.len()
            invariant
                i <= entries@.len(),
                seen@ == hashes(entries@).take(i as int).to_set(),
            decreases entries@.len() - i,
        {
            seen.insert(entries[i].bundle_hash.clone());
            proof {
                let all = hashes(entries@);
                assert(all.take(i + 1) =~= all.take(i as int).push(all[i as int]));
                lemma_push_to_set(all.take(i as int), all[i as int]);
            }
            i += 1;
        }
        assert(hashes(entries@).take(i as int) =~= hashes(entries@));
        DurableLog { seen }
    }

    /// Enters a verdict, and says whether it is new. Where one with its bundle hash
    /// is there already, that one stays.
    pub fn append(&mut self, verdict: &VerdictEvent) -> (r: bool)
        ensures
            r == !old(self)@.contains(verdict.bundle_hash@),
            final(self)@ == old(self)@.insert(verdict.bundle_hash@),
            !r ==> final(self)@ == old(self)@,
    {
        if self.seen.contains(verdict.bundle_hash.as_str()) {
            assert(self@.insert(verdict.bundle_hash@) =~= self@);
            return false;
        }
        self.seen.insert(verdict.bundle_hash.clone());
        true
    }

    /// The entries of the log's text: its lines, but for blank ones.
    pub fn read_all(text: &str) -> (r: Vec<String>)
        ensures
            texts(r@) == filled_lines(text@),
    {
        filled_lines_of(text)
    }

    pub fn already_logged(&self, bundle_hash: &str) -> (r: bool)
        ensures
            r == self@.contains(bundle_hash@),
    {
        self.seen.contains(bundle_hash)
    }

    pub fn len(&self) -> (n: usize)
        ensures
            n == self@.len(),
            self@.finite(),
    {
        self.seen.len()
    }

    pub fn is_empty(&self) -> (r: bool)
        ensures
            r == (self@ == Set::<Seq<char>>::empty()),
    {
        self.seen.is_empty()
    }
}

proof fn lemma_push_to_set(s: Seq<Seq<char>>, a: Seq<char>)
    ensures
        s.push(a).to_set() == s.to_set().insert(a),
{
    let t = s.push(a);
    assert forall|x: Seq<char>|
        #![trigger t.to_set().contains(x)]
        t.to_set().contains(x) <==> s.to_set().insert(a).contains(x) by {
        if s.contains(x) {
            let k = choose|k: int| 0 <= k < s.len() && s[k] == x;
            assert(t[k] == x);
        }
        if t.contains(x) && x != a {
            let k = choose|k: int| 0 <= k < t.len() && t[k] == x;
            assert(s[k] == x);
        }
        assert(t[s.len() as int] == a);
    }
    assert(t.to_set() =~= s.to_set().insert(a));
}

// ---------------------------------------------------------------------- laws

/// The hashes that are written when verdicts are offered to a log one after the
/// other: each that is not there yet.
pub open spec fn written(seen: Set<Seq<char>>, offered: Seq<Seq<char>>) -> Seq<Seq<char>>
    decreases offered.len(),
{
    if offered.len() == 0 {
        Seq::empty()
    } else {
        let before = written(seen, offered.drop_last());
        let last = offered.last();
        if seen.contains(last) || before.contains(last) {
            before
        } else {
            before.push(last)
        }
    }
}

/// At-least-once emission never doubles an entry: whatever is offered, and
/// however often, each hash is written once, nothing that was there is written
/// again, and every hash that was offered is in the log.
pub proof fn law_the_log_holds_each_bundle_once(seen: Set<Seq<char>>, offered: Seq<Seq<char>>)
    ensures
        written(seen, offered).no_duplicates(),
        seen.union(written(seen, offered).to_set()) == seen.union(offered.to_set()),
        forall|h: Seq<char>| seen.contains(h) ==> !#[trigger] written(seen, offered).contains(h),
    decreases offered.len(),
{
    if offered.len() > 0 {
        let rest = offered.drop_last();
        let last = offered.last();
        law_the_log_holds_each_bundle_once(seen, rest);
        assert(offered =~= rest.push(last));
        lemma_push_to_set(rest, last);
        let before = written(seen, rest);
        lemma_push_to_set(before, last);
        assert(before.to_set().contains(last) <==> before.contains(last));
        assert forall|h: Seq<char>| seen.contains(h) implies !#[trigger] written(
            seen,
            offered,
        ).contains(h) by {
            if written(seen, offered).contains(h) {
                assert(written(seen, offered).to_set().contains(h));
                assert(before.to_set().contains(h));
                assert(before.contains(h));
            }
        }
        assert forall|h: Seq<char>|
            #![trigger seen.union(offered.to_set()).contains(h)]
            seen.union(written(seen, offered).to_set()).contains(h) <==> seen.union(
                offered.to_set(),
            ).contains(h) by {
            assert(seen.union(before.to_set()).contains(h) <==> seen.union(rest.to_set()).contains(
                h,
            ));
        }
        assert(seen.union(written(seen, offered).to_set()) =~= seen.union(offered.to_set()));
    } else {
        assert(written(seen, offered).to_set() =~= offered.to_set());
    }
}

/// The log survives a restart: opened again over the entries written so far it
/// knows exactly the hashes that were offered, and offering them again writes nothing.
pub proof fn law_the_log_survives_a_reopen(offered: Seq<Seq<char>>)
    ensures
        written(Set::empty(), offered).to_set() == offered.to_set(),
        written(written(Set::empty(), offered).to_set(), offered) == Seq::<Seq<char>>::empty(),
{
    law_the_log_holds_each_bundle_once(Set::empty(), offered);
    let w = written(Set::empty(), offered).to_set();
    assert(Set::<Seq<char>>::empty().union(w) =~= w);
    assert(Set::<Seq<char>>::empty().union(offered.to_set()) =~= offered.to_set());
    lemma_nothing_new(w, offered);
}

proof fn lemma_nothing_new(seen: Set<Seq<char>>, offered: Seq<Seq<char>>)
    requires
        forall|i: int| 0 <= i < offered.len() ==> seen.contains(#[trigger] offered[i]),
    ensures
        written(seen, offered) == Seq::<Seq<char>>::empty(),
    decreases offered.len(),
{
    if offered.len() > 0 {
        lemma_nothing_new(seen, offered.drop_last());
    }
}

/// Reconciling clears what is pending: a second reconciliation is refused until
/// another verdict is appended.
pub proof fn law_reconciling_clears_the_backlog(s: LogState)
    requires
        s.decided(LogCommand::Reconcile) is Ok,
    ensures
        s.evolved(s.decided(LogCommand::Reconcile)->Ok_0[0]).decided(LogCommand::Reconcile)
            == Err::<Seq<LogEvent>, Seq<char>>("inv-nothing-to-reconcile"@),
{
}

/// A verdict is appended unless it is logged already, and reconciling is possible
/// only while something is pending; appending adds one, reconciling clears.
pub proof fn law_a_log_runs_by_its_rules(s: LogState, logged: bool, v: ReconciliationView)
    requires
        s.pending < i64::MAX,
    ensures
        match s.decided(LogCommand::Append { already_logged: logged }) {
            Ok(events) => !logged && events.len() == 1 && s.evolved(events[0]).pending == s.pending
                + 1,
            Err(rule) => logged && rule == "inv-idempotent-append"@,
        },
        match s.decided(LogCommand::Reconcile) {
            Ok(events) => s.pending > 0 && events.len() == 1 && s.evolved(events[0]).pending == 0,
            Err(rule) => s.pending <= 0 && rule == "inv-nothing-to-reconcile"@,
        },
        v.counted(LogEvent::VerdictAppended) == (v.appended + 1, v.reconciled as int),
        v.counted(LogEvent::DeliverableReconciled) == (v.appended as int, v.reconciled + 1),
{
}

/// The hashes of verdicts are theirs, one for one.
pub proof fn law_hashes_are_those_of_the_verdicts(verdicts: Seq<VerdictEvent>, i: int)
    requires
        0 <= i < verdicts.len(),
    ensures
        hashes(verdicts).len() == verdicts.len(),
        hashes(verdicts)[i] == verdicts[i].bundle_hash@,
{
}

/// A verdict is written the first time its bundle comes, whatever came before.
pub proof fn law_a_new_bundle_is_written(
    seen: Set<Seq<char>>,
    offered: Seq<Seq<char>>,
    h: Seq<char>,
)
    requires
        !seen.contains(h),
        !offered.contains(h),
    ensures
        written(seen, offered.push(h)) == written(seen, offered).push(h),
        written(seen, offered.push(h).push(h)) == written(seen, offered).push(h),
{
    let more = offered.push(h);
    assert(more.drop_last() =~= offered);
    law_the_log_holds_each_bundle_once(seen, offered);
    let w = written(seen, offered);
    assert(!w.contains(h)) by {
        if w.contains(h) {
            assert(seen.union(w.to_set()).contains(h));
            assert(seen.union(offered.to_set()).contains(h));
            assert(offered.contains(h));
        }
    }
    assert(more.push(h).drop_last() =~= more);
    assert(written(seen, more)[w.len() as int] == h);
    assert(written(seen, more).contains(h));
}

} // verus!
