//! The serving host: the container that makes the resident mode physical. At
//! most one is live, and only a ready one serves work.
use vstd::prelude::*;

use crate::decider::{one, outcome};
use crate::text::{
    cut, cut_last, decimal, is_digit, law_a_prefix_is_taken_off, law_a_text_is_cut_at_the_first,
    law_a_text_is_cut_at_the_last, lemma_decimal_digits, lemma_decimal_round_trip, parse_unsigned,
    rsplit_once, split_once, strip_prefix, stripped, unsigned_value,
};

verus! {

#[derive(Clone, Copy, Debug, PartialEq, Eq, Structural)]
pub enum HostPhase {
    Absent,
    Launched,
    Ready,
    Retired,
}

#[derive(Clone, Debug, PartialEq, Eq, Structural)]
pub enum HostEvent {
    HostLaunched,
    HostReady,
    HostRetired,
}

#[derive(Clone, Debug, PartialEq, Eq, Structural)]
pub enum HostCommand {
    /// `containerized`: the host runs as a container.
    Launch { containerized: bool },
    ConfirmReady,
    Retire,
}

#[derive(Clone, Debug, PartialEq, Eq, Structural)]
pub struct HostState {
    pub phase: HostPhase,
}

impl Default for HostState {
    fn default() -> (r: Self)
        ensures
            r.phase == HostPhase::Absent,
    {
        HostState { phase: HostPhase::Absent }
    }
}

impl HostState {
    /// Whether a host is up, ready or not.
    pub open spec fn live(self) -> bool {
        self.phase == HostPhase::Launched || self.phase == HostPhase::Ready
    }

    pub open spec fn evolved(self, e: HostEvent) -> HostState {
        match e {
            HostEvent::HostLaunched => HostState { phase: HostPhase::Launched },
            HostEvent::HostReady => HostState { phase: HostPhase::Ready },
            HostEvent::HostRetired => HostState { phase: HostPhase::Retired },
        }
    }

    pub open spec fn decided(self, c: HostCommand) -> Result<Seq<HostEvent>, Seq<char>> {
        match c {
            HostCommand::Launch { containerized } => if !containerized {
                Err("inv-containerized-host"@)
            } else if self.live() {
                Err("inv-single-serving-host"@)
            } else {
                Ok(seq![HostEvent::HostLaunched])
            },
            HostCommand::ConfirmReady => if self.phase == HostPhase::Launched {
                Ok(seq![HostEvent::HostReady])
            } else {
                Err("inv-ready-needs-launch"@)
            },
            HostCommand::Retire => if self.live() {
                Ok(seq![HostEvent::HostRetired])
            } else {
                Err("inv-nothing-to-retire"@)
            },
        }
    }

    pub fn evolve(&mut self, e: &HostEvent)
        ensures
            *final(self) == old(self).evolved(*e),
    {
        match e {
            HostEvent::HostLaunched => {
                self.phase = HostPhase::Launched;
            },
            HostEvent::HostReady => {
                self.phase = HostPhase::Ready;
            },
            HostEvent::HostRetired => {
                self.phase = HostPhase::Retired;
            },
        }
    }

    /// A host is launched only as a container and only while none is live, is
    /// confirmed ready only once launched, and is retired only while live.
    pub fn decide(&self, c: &HostCommand) -> (r: Result<Vec<HostEvent>, &'static str>)
        ensures
            outcome(r) == self.decided(*c),
    {
        let live: bool = self.phase == HostPhase::Launched || self.phase == HostPhase::Ready;
        match c {
            HostCommand::Launch { containerized } => {
                if !*containerized {
                    Err("inv-containerized-host")
                } else if live {
                    Err("inv-single-serving-host")
                } else {
                    Ok(one(HostEvent::HostLaunched))
                }
            },
            HostCommand::ConfirmReady => {
                if self.phase == HostPhase::Launched {
                    Ok(one(HostEvent::HostReady))
                } else {
                    Err("inv-ready-needs-launch")
                }
            },
            HostCommand::Retire => {
                if live {
                    Ok(one(HostEvent::HostRetired))
                } else {
                    Err("inv-nothing-to-retire")
                }
            },
        }
    }
}

/// How many hosts are materialized, and whether the live one is ready.
#[derive(Clone, Debug, PartialEq, Eq, Structural)]
pub struct ServingHostView {
    pub materialized: i64,
    pub ready: bool,
}

impl Default for ServingHostView {
    fn default() -> (r: Self)
        ensures
            r == (ServingHostView { materialized: 0, ready: false }),
    {
        ServingHostView { materialized: 0, ready: false }
    }
}

/// By how much an event changes the number of materialized hosts.
pub open spec fn host_change(e: HostEvent) -> int {
    match e {
        HostEvent::HostLaunched => 1,
        HostEvent::HostReady => 0,
        HostEvent::HostRetired => -1,
    }
}

impl ServingHostView {
    /// The view as an event leaves it.
    pub open spec fn applied(self, e: HostEvent) -> ServingHostView {
        ServingHostView {
            materialized: (self.materialized + host_change(e)) as i64,
            ready: e == HostEvent::HostReady,
        }
    }

    /// The view agrees with the state: one host while one is live.
    pub open spec fn shows(self, s: HostState) -> bool {
        &&& self.materialized == if s.live() {
            1int
        } else {
            0int
        }
        &&& self.ready == (s.phase == HostPhase::Ready)
    }

    pub fn apply(&mut self, e: &HostEvent)
        requires
            i64::MIN <= old(self).materialized + host_change(*e) <= i64::MAX,
        ensures
            *final(self) == old(self).applied(*e),
    {
        match e {
            HostEvent::HostLaunched => {
                self.materialized += 1;
                self.ready = false;
            },
            HostEvent::HostReady => {
                self.ready = true;
            },
            HostEvent::HostRetired => {
                self.materialized -= 1;
                self.ready = false;
            },
        }
    }
}

/// What to launch: the model and the image it runs in, and where.
#[derive(Clone, Debug, PartialEq, Eq)]
pub struct HostSpec {
    pub host_id: String,
    pub model: String,
    pub image: String,
    pub ssh_target: String,
    pub port: u16,
    pub extra_args: Vec<String>,
}

/// A launched host: where it answers and what it serves.
#[derive(Clone, Debug, PartialEq, Eq)]
pub struct HostHandle {
    pub host_id: String,
    pub endpoint: String,
    pub model: String,
}

/// What follows the scheme of an endpoint.
pub open spec fn without_scheme(endpoint: Seq<char>) -> Seq<char> {
    match stripped(endpoint, "http://"@) {
        Some(rest) => rest,
        None => match stripped(endpoint, "https://"@) {
            Some(rest) => rest,
            None => endpoint,
        },
    }
}

/// What stands before the first slash.
pub open spec fn authority(s: Seq<char>) -> Seq<char> {
    match cut(s, '/') {
        Some(parts) => parts.0,
        None => s,
    }
}

/// The host and the port of an endpoint; port 80 where none is given, or none
/// that is a port.
pub open spec fn probe_target(endpoint: Seq<char>) -> (Seq<char>, u16) {
    let a = authority(without_scheme(endpoint));
    match cut_last(a, ':') {
        Some(parts) => (
            parts.0,
            match unsigned_value(parts.1, 65535) {
                Some(p) => p as u16,
                None => 80,
            },
        ),
        None => (a, 80),
    }
}

/// Splits an `http://host:port` endpoint into the host and the port to probe.
pub fn host_port(endpoint: &str) -> (r: (String, u16))
    ensures
        (r.0@, r.1) == probe_target(endpoint@),
{
    let rest: String = match strip_prefix(endpoint, "http://") {
        Some(rest) => rest,
        None => match strip_prefix(endpoint, "https://") {
            Some(rest) => rest,
            None => endpoint.to_owned(),
        },
    };
    let host: String = match split_once(rest.as_str(), '/') {
        Some(parts) => parts.0,
        None => rest,
    };
    match rsplit_once(host.as_str(), ':') {
        Some(parts) => {
            let port: u16 = match parse_unsigned(parts.1.as_str(), 65535) {
                Some(p) => p as u16,
                None => 80,
            };
            (parts.0, port)
        },
        None => (host, 80),
    }
}

/// What to do after a probe: done with an answer, given up once the time is
/// over, else nothing yet, and the host is probed again after a pause.
pub fn after_probe(answered: bool, elapsed_ms: u64, timeout_ms: u64) -> (r: Option<bool>)
    ensures
        r == if answered {
            Some(true)
        } else if elapsed_ms >= timeout_ms {
            Some(false)
        } else {
            None
        },
{
    if answered {
        Some(true)
    } else if elapsed_ms >= timeout_ms {
        Some(false)
    } else {
        None
    }
}

// ---------------------------------------------------------------------- laws

/// There is never a second host: while one is live no other is launched, and
/// after it is retired one is.
pub proof fn law_one_host_at_a_time(s: HostState)
    ensures
        s.live() ==> s.decided(HostCommand::Launch { containerized: true }) == Err::<
            Seq<HostEvent>,
            Seq<char>,
        >("inv-single-serving-host"@),
        s.evolved(HostEvent::HostRetired).decided(HostCommand::Launch { containerized: true }) is Ok,
        s.decided(HostCommand::Launch { containerized: false }) is Err,
{
}

/// The view keeps showing the state through every accepted command, so that it
/// counts one host while one is live and none otherwise.
pub proof fn law_the_view_shows_the_host(s: HostState, v: ServingHostView, c: HostCommand)
    requires
        v.shows(s),
        s.decided(c) is Ok,
    ensures
        s.decided(c)->Ok_0.len() == 1,
        v.applied(s.decided(c)->Ok_0[0]).shows(s.evolved(s.decided(c)->Ok_0[0])),
{
}

/// A host is launched only as a container and while none is live, confirmed only
/// once launched, and retired only while live; each leads into its phase.
pub proof fn law_a_host_runs_by_its_rules(s: HostState, containerized: bool)
    ensures
        s.live() <==> s.phase == HostPhase::Launched || s.phase == HostPhase::Ready,
        match s.decided(HostCommand::Launch { containerized }) {
            Ok(events) => containerized && !s.live() && events.len() == 1 && s.evolved(
                events[0],
            ).phase == HostPhase::Launched,
            Err(rule) => !containerized && rule == "inv-containerized-host"@ || containerized
                && s.live() && rule == "inv-single-serving-host"@,
        },
        match s.decided(HostCommand::ConfirmReady) {
            Ok(events) => s.phase == HostPhase::Launched && events.len() == 1 && s.evolved(
                events[0],
            ).phase == HostPhase::Ready,
            Err(rule) => s.phase != HostPhase::Launched && rule == "inv-ready-needs-launch"@,
        },
        match s.decided(HostCommand::Retire) {
            Ok(events) => s.live() && events.len() == 1 && s.evolved(events[0]).phase
                == HostPhase::Retired,
            Err(rule) => !s.live() && rule == "inv-nothing-to-retire"@,
        },
{
}

/// The view counts a launch up and a retirement down, and shows a host as ready
/// only right after it was confirmed.
pub proof fn law_the_view_follows_the_events(v: ServingHostView)
    requires
        i64::MIN < v.materialized < i64::MAX,
    ensures
        v.applied(HostEvent::HostLaunched) == (ServingHostView {
            materialized: (v.materialized + 1) as i64,
            ready: false,
        }),
        v.applied(HostEvent::HostReady) == (ServingHostView {
            materialized: v.materialized,
            ready: true,
        }),
        v.applied(HostEvent::HostRetired) == (ServingHostView {
            materialized: (v.materialized - 1) as i64,
            ready: false,
        }),
{
}

/// An endpoint is probed at its host and its port, with either scheme or none and
/// whatever path follows; at port 80 where it gives none.
pub proof fn law_an_endpoint_is_probed_at_its_host_and_port(
    host: Seq<char>,
    port: u16,
    path: Seq<char>,
)
    requires
        !host.contains('/'),
        !host.contains(':'),
    ensures
        probe_target("http://"@ + (host + seq![':'] + decimal(port as nat))) == (host, port),
        probe_target("https://"@ + (host + seq![':'] + decimal(port as nat))) == (host, port),
        probe_target(
            "http://"@ + (host + seq![':'] + decimal(port as nat) + seq!['/'] + path),
        ) == (host, port),
        probe_target("http://"@ + host) == (host, 80u16),
        probe_target("http://"@ + (host + seq!['/'] + path)) == (host, 80u16),
        probe_target(host) == (host, 80u16),
{
    let d = decimal(port as nat);
    let a = host + seq![':'] + d;
    lemma_decimal_digits(port as nat);
    lemma_decimal_round_trip(port as nat);
    assert(!d.contains(':') && !d.contains('/')) by {
        if d.contains(':') || d.contains('/') {
            let k = choose|k: int| 0 <= k < d.len() && (d[k] == ':' || d[k] == '/');
            assert(is_digit(d[k]));
        }
    }
    assert(!a.contains('/')) by {
        if a.contains('/') {
            let k = choose|k: int| 0 <= k < a.len() && a[k] == '/';
            if k < host.len() {
                assert(host.contains(host[k]));
            } else if k > host.len() {
                assert(d.contains(d[k - host.len() - 1]));
            }
        }
    }
    assert(is_digit(d[0]));
    assert(unsigned_value(d, 65535) == Some(port as u64));
    law_a_text_is_cut_at_the_last(host, ':', d);
    law_a_text_is_cut_at_the_last(Seq::empty(), ':', host);
    law_a_text_is_cut_at_the_first(a, '/', path);
    law_a_text_is_cut_at_the_first(host, '/', path);
    law_a_prefix_is_taken_off("http://"@, a, Seq::empty());
    law_a_prefix_is_taken_off("https://"@, a, Seq::empty());
    law_a_prefix_is_taken_off("http://"@, a + seq!['/'] + path, Seq::empty());
    law_a_prefix_is_taken_off("http://"@, host, host);
    law_a_prefix_is_taken_off("http://"@, host + seq!['/'] + path, "https://"@ + a);
    law_a_prefix_is_taken_off("https://"@, host, host);
    reveal_strlit("http://");
    reveal_strlit("https://");
    let s = "https://"@ + a;
    assert(s[4] == 's');
    if stripped(s, "http://"@) is Some {
        assert(("http://"@ + stripped(s, "http://"@)->0)[4] == ':');
    }
    if stripped(host, "http://"@) is Some {
        assert(host[4] == ':');
        assert(host.contains(host[4]));
    }
    if stripped(host, "https://"@) is Some {
        assert(host[5] == ':');
        assert(host.contains(host[5]));
    }
    assert(a + seq!['/'] + path =~= host + seq![':'] + d + seq!['/'] + path);
}

/// A probe is repeated only while the host has not answered and time is left.
pub proof fn law_a_probe_ends_with_an_answer_or_the_time(
    answered: bool,
    elapsed_ms: u64,
    timeout_ms: u64,
    r: Option<bool>,
)
    requires
        call_ensures(after_probe, (answered, elapsed_ms, timeout_ms), r),
    ensures
        r == Some(true) <==> answered,
        r == Some(false) <==> !answered && elapsed_ms >= timeout_ms,
        r is None <==> !answered && elapsed_ms < timeout_ms,
{
}

/// What cannot be a port counts as port 80.
pub proof fn law_a_bad_port_is_probed_at_80(host: Seq<char>, port: Seq<char>)
    requires
        !host.contains('/'),
        !port.contains('/'),
        !port.contains(':'),
        unsigned_value(port, 65535) is None,
    ensures
        probe_target("http://"@ + (host + seq![':'] + port)) == (host, 80u16),
{
    let a = host + seq![':'] + port;
    assert(!a.contains('/')) by {
        if a.contains('/') {
            let k = choose|k: int| 0 <= k < a.len() && a[k] == '/';
            if k < host.len() {
                assert(host.contains(host[k]));
            } else if k > host.len() {
                assert(port.contains(port[k - host.len() - 1]));
            }
        }
    }
    law_a_text_is_cut_at_the_first(a, '/', Seq::empty());
    law_a_text_is_cut_at_the_last(host, ':', port);
    law_a_prefix_is_taken_off("http://"@, a, Seq::empty());
}

} // verus!
