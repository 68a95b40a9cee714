//! Isolation: a sandbox for each unit that is gone when the unit is done, and
//! credentials that are leased against a grant and revoked.
use vstd::prelude::*;

use crate::decider::{one, outcome};
use crate::text::{
    alphanumeric, chars_of, decimal, decimal_text, is_alphanumeric, is_digit, lemma_decimal_digits,
    lemma_decimal_round_trip,
};

verus! {

// --------------------------------------------------------------- the sandbox

#[derive(Clone, Copy, Debug, PartialEq, Eq, Structural)]
pub enum SandboxPhase {
    Absent,
    Provisioned,
    Destroyed,
}

#[derive(Clone, Debug, PartialEq, Eq, Structural)]
pub enum SandboxEvent {
    SandboxProvisioned,
    SandboxDestroyed,
}

#[derive(Clone, Debug, PartialEq, Eq, Structural)]
pub enum SandboxCommand {
    /// `network_declared`: every effect targets a declared destination.
    Provision { network_declared: bool },
    Teardown,
}

#[derive(Clone, Debug, PartialEq, Eq, Structural)]
pub struct SandboxState {
    pub phase: SandboxPhase,
}

impl Default for SandboxState {
    fn default() -> (r: Self)
        ensures
            r.phase == SandboxPhase::Absent,
    {
        SandboxState { phase: SandboxPhase::Absent }
    }
}

impl SandboxState {
    pub open spec fn evolved(self, e: SandboxEvent) -> SandboxState {
        match e {
            SandboxEvent::SandboxProvisioned => SandboxState { phase: SandboxPhase::Provisioned },
            SandboxEvent::SandboxDestroyed => SandboxState { phase: SandboxPhase::Destroyed },
        }
    }

    pub open spec fn decided(self, c: SandboxCommand) -> Result<Seq<SandboxEvent>, Seq<char>> {
        match c {
            SandboxCommand::Provision { network_declared } => if network_declared {
                Ok(seq![SandboxEvent::SandboxProvisioned])
            } else {
                Err("inv-undeclared-network"@)
            },
            SandboxCommand::Teardown => if self.phase == SandboxPhase::Provisioned {
                Ok(seq![SandboxEvent::SandboxDestroyed])
            } else {
                Err("inv-no-sandbox"@)
            },
        }
    }

    pub fn evolve(&mut self, e: &SandboxEvent)
        ensures
            *final(self) == old(self).evolved(*e),
    {
        match e {
            SandboxEvent::SandboxProvisioned => {
                self.phase = SandboxPhase::Provisioned;
            },
            SandboxEvent::SandboxDestroyed => {
                self.phase = SandboxPhase::Destroyed;
            },
        }
    }

    /// A sandbox is provisioned only for declared destinations, and only a
    /// provisioned one is torn down.
    pub fn decide(&self, c: &SandboxCommand) -> (r: Result<Vec<SandboxEvent>, &'static str>)
        ensures
            outcome(r) == self.decided(*c),
    {
        match c {
            SandboxCommand::Provision { network_declared } => {
                if *network_declared {
                    Ok(one(SandboxEvent::SandboxProvisioned))
                } else {
                    Err("inv-undeclared-network")
                }
            },
            SandboxCommand::Teardown => {
                if self.phase == SandboxPhase::Provisioned {
                    Ok(one(SandboxEvent::SandboxDestroyed))
                } else {
                    Err("inv-no-sandbox")
                }
            },
        }
    }
}

// ----------------------------------------------------------------- the lease

#[derive(Clone, Copy, Debug, PartialEq, Eq, Structural)]
pub enum LeasePhase {
    Absent,
    Leased,
    Revoked,
}

#[derive(Clone, Debug, PartialEq, Eq, Structural)]
pub enum LeaseEvent {
    CredentialLeased,
    CredentialRevoked,
}

#[derive(Clone, Debug, PartialEq, Eq, Structural)]
pub enum LeaseCommand {
    Exchange { sandbox_active: bool },
    Revoke,
}

#[derive(Clone, Debug, PartialEq, Eq, Structural)]
pub struct LeaseState {
    pub phase: LeasePhase,
}

impl Default for LeaseState {
    fn default() -> (r: Self)
        ensures
            r.phase == LeasePhase::Absent,
    {
        LeaseState { phase: LeasePhase::Absent }
    }
}

impl LeaseState {
    pub open spec fn evolved(self, e: LeaseEvent) -> LeaseState {
        match e {
            LeaseEvent::CredentialLeased => LeaseState { phase: LeasePhase::Leased },
            LeaseEvent::CredentialRevoked => LeaseState { phase: LeasePhase::Revoked },
        }
    }

    pub open spec fn decided(self, c: LeaseCommand) -> Result<Seq<LeaseEvent>, Seq<char>> {
        match c {
            LeaseCommand::Exchange { sandbox_active } => if sandbox_active {
                Ok(seq![LeaseEvent::CredentialLeased])
            } else {
                Err("inv-lease-needs-sandbox"@)
            },
            LeaseCommand::Revoke => if self.phase == LeasePhase::Leased {
                Ok(seq![LeaseEvent::CredentialRevoked])
            } else {
                Err("inv-nothing-to-revoke"@)
            },
        }
    }

    pub fn evolve(&mut self, e: &LeaseEvent)
        ensures
            *final(self) == old(self).evolved(*e),
    {
        match e {
            LeaseEvent::CredentialLeased => {
                self.phase = LeasePhase::Leased;
            },
            LeaseEvent::CredentialRevoked => {
                self.phase = LeasePhase::Revoked;
            },
        }
    }

    /// A credential is leased only for a live sandbox, and only a held lease is revoked.
    pub fn decide(&self, c: &LeaseCommand) -> (r: Result<Vec<LeaseEvent>, &'static str>)
        ensures
            outcome(r) == self.decided(*c),
    {
        match c {
            LeaseCommand::Exchange { sandbox_active } => {
                if *sandbox_active {
                    Ok(one(LeaseEvent::CredentialLeased))
                } else {
                    Err("inv-lease-needs-sandbox")
                }
            },
            LeaseCommand::Revoke => {
                if self.phase == LeasePhase::Leased {
                    Ok(one(LeaseEvent::CredentialRevoked))
                } else {
                    Err("inv-nothing-to-revoke")
                }
            },
        }
    }
}

// ------------------------------------------------------------ live sandboxes

/// How many sandboxes are live.
#[derive(Clone, Debug, PartialEq, Eq, Structural)]
pub struct IsolationView {
    pub live: i64,
}

impl Default for IsolationView {
    fn default() -> (r: Self)
        ensures
            r.live == 0,
    {
        IsolationView { live: 0 }
    }
}

/// By how much an event changes the number of live sandboxes.
pub open spec fn live_change(e: SandboxEvent) -> int {
    match e {
        SandboxEvent::SandboxProvisioned => 1,
        SandboxEvent::SandboxDestroyed => -1,
    }
}

/// By how much a run of events changes the number of live sandboxes.
pub open spec fn live_after(events: Seq<SandboxEvent>) -> int
    decreases events.len(),
{
    if events.len() == 0 {
        0
    } else {
        live_after(events.drop_last()) + live_change(events.last())
    }
}

impl IsolationView {
    pub fn apply(&mut self, e: &SandboxEvent)
        requires
            i64::MIN <= old(self).live + live_change(*e) <= i64::MAX,
        ensures
            final(self).live == old(self).live + live_change(*e),
    {
        match e {
            SandboxEvent::SandboxProvisioned => {
                self.live += 1;
            },
            SandboxEvent::SandboxDestroyed => {
                self.live -= 1;
            },
        }
    }
}

// ------------------------------------------------------------ the local seams

/// A boundary on the file system: a private workspace for each unit under `root`.
#[derive(Clone, Debug, PartialEq, Eq)]
pub struct LocalSandbox {
    pub root: String,
}

impl Default for LocalSandbox {
    fn default() -> (r: Self)
        ensures
            r.root@ == ".kiln/sandboxes"@,
    {
        LocalSandbox { root: ".kiln/sandboxes".to_owned() }
    }
}

/// The path of `name` under `root`: a slash between them, unless `root` is empty
/// or ends in one.
pub open spec fn under(root: Seq<char>, name: Seq<char>) -> Seq<char> {
    if root.len() == 0 || root.last() == '/' {
        root + name
    } else {
        root + "/"@ + name
    }
}

/// How a character stands in the name of a workspace: letters, digits and hyphens
/// for themselves, any other by its number between underscores.
pub open spec fn name_part(c: char) -> Seq<char> {
    if alphanumeric(c) || c == '-' {
        seq![c]
    } else {
        seq!['_'] + decimal(c as u32 as nat) + seq!['_']
    }
}

/// The parts of all characters, one after the other.
pub open spec fn name_parts(s: Seq<char>) -> Seq<char>
    decreases s.len(),
{
    if s.len() == 0 {
        Seq::empty()
    } else {
        name_parts(s.drop_last()) + name_part(s.last())
    }
}

/// The name of a unit's workspace; a lone underscore for a unit without a name.
pub open spec fn workspace_name(unit_ref: Seq<char>) -> Seq<char> {
    if unit_ref.len() == 0 {
        seq!['_']
    } else {
        name_parts(unit_ref)
    }
}

fn workspace_name_text(unit_ref: &str) -> (r: String)
    ensures
        r@ == workspace_name(unit_ref@),
{
    let v: Vec<char> = chars_of(unit_ref);
    let mut r: String = String::new();
    if v.len() == 0 {
        r.push('_');
        assert(r@ =~= seq!['_']);
        return r;
    }
    let mut i: usize = 0;
    while i < v.len()
        invariant
            i <= v@.len(),
            v@ == unit_ref@,
            r@ == name_parts(v@.take(i as int)),
        decreases v@.len() - i,
    {
        let c: char = v[i];
        let ghost before = r@;
        if is_alphanumeric(c) || c == '-' {
            r.push(c);
            assert(r@ =~= before + name_part(c));
        } else {
            r.push('_');
            r.append(decimal_text(c as u32 as u64).as_str());
            r.push('_');
            assert(r@ =~= before + name_part(c));
        }
        assert(v@.take(i + 1).drop_last() =~= v@.take(i as int));
        i += 1;
    }
    assert(v@.take(i as int) =~= v@);
    r
}

impl LocalSandbox {
    /// The workspace of a unit: a directory of its own under the root.
    pub fn workspace(&self, unit_ref: &str) -> (r: String)
        ensures
            r@ == under(self.root@, workspace_name(unit_ref@)),
    {
        let root: Vec<char> = chars_of(self.root.as_str());
        let mut r: String = self.root.clone();
        if root.len() > 0 && root[root.len() - 1] != '/' {
            r.append("/");
        }
        r.append(workspace_name_text(unit_ref).as_str());
        r
    }

    /// Provisions a unit: where its workspace is, if `made` says that the directory
    /// could be made; else why it could not.
    pub fn provision(&self, unit_ref: &str, made: Result<(), String>) -> (r: Result<String, String>)
        ensures
            match made {
                Ok(_) => r matches Ok(workspace) && workspace@ == under(
                    self.root@,
                    workspace_name(unit_ref@),
                ),
                Err(why) => r == Err::<String, String>(why),
            },
    {
        match made {
            Ok(_) => Ok(self.workspace(unit_ref)),
            Err(why) => Err(why),
        }
    }
}

/// Whether a path lies directly under a root: one segment further, which is not
/// empty and holds no slash and no dot.
pub open spec fn directly_under(root: Seq<char>, path: Seq<char>) -> bool {
    exists|name: Seq<char>|
        {
            &&& #[trigger] under(root, name) == path
            &&& name.len() > 0
            &&& !name.contains('/')
            &&& !name.contains('.')
        }
}

/// The execution boundary: gives a unit its workspace, and takes it away. The
/// error says why it could not.
pub trait SandboxRuntime {
    fn provision(&self, unit_ref: &str) -> Result<String, String>;

    fn teardown(&self, workspace: &str) -> Result<(), String>;
}

/// Exchanges a grant reference for a short-lived credential, and revokes it.
pub trait CredentialBroker {
    fn exchange(&self, grant_ref: &str) -> String;

    fn revoke(&self, lease: &str);
}

/// A broker that mints opaque tokens itself.
pub struct LocalBroker;

impl CredentialBroker for LocalBroker {
    fn exchange(&self, grant_ref: &str) -> (r: String)
        ensures
            r@ == "lease:"@ + grant_ref@,
    {
        let mut r: String = "lease:".to_owned();
        r.append(grant_ref);
        r
    }

    fn revoke(&self, lease: &str) {
    }
}

// ---------------------------------------------------------------------- laws

/// A sandbox is torn down once: after its teardown another is refused until a
/// sandbox is provisioned again.
pub proof fn law_a_sandbox_is_torn_down_once(s: SandboxState)
    requires
        s.decided(SandboxCommand::Teardown) is Ok,
    ensures
        s.evolved(s.decided(SandboxCommand::Teardown)->Ok_0[0]).decided(SandboxCommand::Teardown)
            == Err::<Seq<SandboxEvent>, Seq<char>>("inv-no-sandbox"@),
{
}

/// A lease is revoked once: after its revocation another is refused until a
/// credential is leased again.
pub proof fn law_a_lease_is_revoked_once(s: LeaseState)
    requires
        s.decided(LeaseCommand::Revoke) is Ok,
    ensures
        s.evolved(s.decided(LeaseCommand::Revoke)->Ok_0[0]).decided(LeaseCommand::Revoke) == Err::<
            Seq<LeaseEvent>,
            Seq<char>,
        >("inv-nothing-to-revoke"@),
{
}

/// Every sandbox that was provisioned and torn down again leaves the number of
/// live ones as it was.
pub proof fn law_teardown_undoes_provisioning(events: Seq<SandboxEvent>)
    ensures
        live_after(
            events.push(SandboxEvent::SandboxProvisioned).push(SandboxEvent::SandboxDestroyed),
        ) == live_after(events),
{
    let a = events.push(SandboxEvent::SandboxProvisioned);
    let b = a.push(SandboxEvent::SandboxDestroyed);
    assert(b.drop_last() =~= a);
    assert(a.drop_last() =~= events);
    assert(live_after(a) == live_after(events) + 1);
    assert(live_after(b) == live_after(a) - 1);
}

/// A workspace lies directly under the root, whatever the unit is called: its
/// name is not empty and has no slash and no dot in it.
pub proof fn law_a_workspace_name_is_one_path_segment(unit_ref: Seq<char>)
    ensures
        workspace_name(unit_ref).len() > 0,
        forall|i: int|
            0 <= i < workspace_name(unit_ref).len() ==> (#[trigger] workspace_name(unit_ref)[i])
                != '/' && workspace_name(unit_ref)[i] != '.',
{
    lemma_name_parts(unit_ref);
}

proof fn lemma_name_part(c: char)
    ensures
        name_part(c).len() > 0,
        forall|i: int|
            0 <= i < name_part(c).len() ==> (#[trigger] name_part(c)[i]) != '/' && name_part(c)[i]
                != '.',
{
    lemma_decimal_digits(c as u32 as nat);
    let digits = decimal(c as u32 as nat);
    if !(alphanumeric(c) || c == '-') {
        assert forall|i: int| 0 <= i < name_part(c).len() implies (#[trigger] name_part(c)[i])
            != '/' && name_part(c)[i] != '.' by {
            if 0 < i < name_part(c).len() - 1 {
                assert(name_part(c)[i] == digits[i - 1]);
                assert(is_digit(digits[i - 1]));
            }
        }
    }
}

proof fn lemma_name_parts(s: Seq<char>)
    ensures
        s.len() > 0 ==> name_parts(s).len() > 0,
        forall|i: int|
            0 <= i < name_parts(s).len() ==> (#[trigger] name_parts(s)[i]) != '/' && name_parts(
                s,
            )[i] != '.',
    decreases s.len(),
{
    if s.len() > 0 {
        lemma_name_parts(s.drop_last());
        lemma_name_part(s.last());
        let rest = name_parts(s.drop_last());
        assert forall|i: int| 0 <= i < name_parts(s).len() implies (#[trigger] name_parts(s)[i])
            != '/' && name_parts(s)[i] != '.' by {
            if i >= rest.len() {
                assert(name_parts(s)[i] == name_part(s.last())[i - rest.len()]);
            } else {
                assert(name_parts(s)[i] == rest[i]);
            }
        }
    }
}

/// Where two names end in the same text, they end in the same character.
proof fn lemma_last_part(p: Seq<char>, c: char, q: Seq<char>, d: char)
    requires
        p + name_part(c) == q + name_part(d),
    ensures
        p == q,
        c == d,
{
    let all = p + name_part(c);
    let n = all.len() as int;
    let x = decimal(c as u32 as nat);
    let y = decimal(d as u32 as nat);
    lemma_decimal_digits(c as u32 as nat);
    lemma_decimal_digits(d as u32 as nat);
    let plain_c = alphanumeric(c) || c == '-';
    let plain_d = alphanumeric(d) || d == '-';
    assert(all[n - 1] == name_part(c).last());
    assert(all[n - 1] == name_part(d).last());
    if plain_c || plain_d {
        assert(plain_c && plain_d && c == d);
    } else {
        assert(name_part(c).len() == x.len() + 2);
        assert(name_part(d).len() == y.len() + 2);
        assert forall|k: int| 0 <= k < x.len() implies #[trigger] all[p.len() + 1 + k] == x[k] by {
            assert(name_part(c)[1 + k] == x[k]);
        }
        assert forall|k: int| 0 <= k < y.len() implies #[trigger] all[q.len() + 1 + k] == y[k] by {
            assert(name_part(d)[1 + k] == y[k]);
        }
        assert(all[p.len() as int] == '_');
        assert(all[q.len() as int] == '_');
        if x.len() < y.len() {
            let k = p.len() - q.len() - 1;
            assert(all[q.len() + 1 + k] == y[k]);
            assert(is_digit(y[k]));
        } else if y.len() < x.len() {
            let k = q.len() - p.len() - 1;
            assert(all[p.len() + 1 + k] == x[k]);
            assert(is_digit(x[k]));
        }
        assert(p.len() == q.len());
        assert forall|k: int| 0 <= k < x.len() implies x[k] == y[k] by {
            assert(all[p.len() + 1 + k] == x[k]);
            assert(all[q.len() + 1 + k] == y[k]);
        }
        assert(x =~= y);
        lemma_decimal_round_trip(c as u32 as nat);
        lemma_decimal_round_trip(d as u32 as nat);
        assert(c as u32 == d as u32);
    }
    assert forall|k: int| 0 <= k < p.len() implies p[k] == q[k] by {
        assert(all[k] == p[k]);
        assert(all[k] == q[k]);
    }
    assert(p =~= q);
}

proof fn lemma_name_parts_tell(a: Seq<char>, b: Seq<char>)
    requires
        name_parts(a) == name_parts(b),
    ensures
        a == b,
    decreases a.len(),
{
    lemma_name_parts(a);
    lemma_name_parts(b);
    if a.len() > 0 && b.len() > 0 {
        lemma_last_part(
            name_parts(a.drop_last()),
            a.last(),
            name_parts(b.drop_last()),
            b.last(),
        );
        lemma_name_parts_tell(a.drop_last(), b.drop_last());
        assert(a =~= a.drop_last().push(a.last()));
        assert(b =~= b.drop_last().push(b.last()));
    } else {
        assert(a =~= b);
    }
}

proof fn lemma_never_lone(s: Seq<char>)
    requires
        s.len() > 0,
    ensures
        name_parts(s) != seq!['_'],
{
    let rest = name_parts(s.drop_last());
    let c = s.last();
    lemma_decimal_digits(c as u32 as nat);
    if name_parts(s) == seq!['_'] {
        assert(name_part(c).len() >= 1);
        assert(rest.len() == 0);
        assert(name_parts(s)[0] == name_part(c)[0]);
    }
}

/// Each unit has a private workspace: under any root, units with different names
/// have different workspaces, each directly under the root.
pub proof fn law_units_have_different_workspaces(root: Seq<char>, a: Seq<char>, b: Seq<char>)
    requires
        a != b,
    ensures
        under(root, workspace_name(a)) != under(root, workspace_name(b)),
        directly_under(root, under(root, workspace_name(a))),
        directly_under(root, under(root, workspace_name(b))),
{
    let x = workspace_name(a);
    let y = workspace_name(b);
    law_a_workspace_name_is_one_path_segment(a);
    law_a_workspace_name_is_one_path_segment(b);
    assert(directly_under(root, under(root, x)));
    assert(directly_under(root, under(root, y)));
    if under(root, x) == under(root, y) {
        let stem = if root.len() == 0 || root.last() == '/' {
            root
        } else {
            root + "/"@
        };
        assert((stem + x).skip(stem.len() as int) =~= x);
        assert((stem + y).skip(stem.len() as int) =~= y);
        assert(x == y);
        if a.len() == 0 && b.len() == 0 {
            assert(a =~= b);
        } else if a.len() == 0 {
            lemma_never_lone(b);
        } else if b.len() == 0 {
            lemma_never_lone(a);
        } else {
            lemma_name_parts_tell(a, b);
        }
    }
}

/// A sandbox is provisioned only for declared destinations and torn down only while
/// it stands; a credential is leased only while a sandbox is active and revoked only
/// while it is held. Each leads into its phase.
pub proof fn law_isolation_runs_by_its_rules(
    s: SandboxState,
    l: LeaseState,
    declared: bool,
    active: bool,
)
    ensures
        match s.decided(SandboxCommand::Provision { network_declared: declared }) {
            Ok(events) => declared && events.len() == 1 && s.evolved(events[0]).phase
                == SandboxPhase::Provisioned,
            Err(rule) => !declared && rule == "inv-undeclared-network"@,
        },
        match s.decided(SandboxCommand::Teardown) {
            Ok(events) => s.phase == SandboxPhase::Provisioned && events.len() == 1 && s.evolved(
                events[0],
            ).phase == SandboxPhase::Destroyed,
            Err(rule) => s.phase != SandboxPhase::Provisioned && rule == "inv-no-sandbox"@,
        },
        match l.decided(LeaseCommand::Exchange { sandbox_active: active }) {
            Ok(events) => active && events.len() == 1 && l.evolved(events[0]).phase
                == LeasePhase::Leased,
            Err(rule) => !active && rule == "inv-lease-needs-sandbox"@,
        },
        match l.decided(LeaseCommand::Revoke) {
            Ok(events) => l.phase == LeasePhase::Leased && events.len() == 1 && l.evolved(
                events[0],
            ).phase == LeasePhase::Revoked,
            Err(rule) => l.phase != LeasePhase::Leased && rule == "inv-nothing-to-revoke"@,
        },
        live_change(SandboxEvent::SandboxProvisioned) == 1,
        live_change(SandboxEvent::SandboxDestroyed) == -1,
{
}

/// A unit with a plain name has its workspace under that name.
pub proof fn law_a_plain_name_is_kept(root: Seq<char>, unit_ref: Seq<char>)
    requires
        unit_ref.len() > 0,
        forall|i: int|
            0 <= i < unit_ref.len() ==> ('a' <= (#[trigger] unit_ref[i]) <= 'z') || ('A'
                <= unit_ref[i] <= 'Z') || ('0' <= unit_ref[i] <= '9') || unit_ref[i] == '-',
    ensures
        workspace_name(unit_ref) == unit_ref,
        root.len() > 0 && root.last() != '/' ==> under(root, unit_ref) == root + "/"@ + unit_ref,
        under(root + seq!['/'], unit_ref) == root + seq!['/'] + unit_ref,
        under(Seq::empty(), unit_ref) == unit_ref,
{
    lemma_plain_parts(unit_ref);
    assert(Seq::<char>::empty() + unit_ref =~= unit_ref);
}

proof fn lemma_plain_parts(s: Seq<char>)
    requires
        forall|i: int|
            0 <= i < s.len() ==> ('a' <= (#[trigger] s[i]) <= 'z') || ('A' <= s[i] <= 'Z') || ('0'
                <= s[i] <= '9') || s[i] == '-',
    ensures
        name_parts(s) == s,
    decreases s.len(),
{
    if s.len() > 0 {
        let rest = s.drop_last();
        assert forall|i: int| 0 <= i < rest.len() implies ('a' <= (#[trigger] rest[i]) <= 'z') || (
        'A' <= rest[i] <= 'Z') || ('0' <= rest[i] <= '9') || rest[i] == '-' by {
            assert(rest[i] == s[i]);
        }
        lemma_plain_parts(rest);
        assert(s.last() == s[s.len() - 1]);
        assert(name_part(s.last()) == seq![s.last()]);
        assert(rest + seq![s.last()] =~= s);
    } else {
        assert(name_parts(s) =~= s);
    }
}

} // verus!
