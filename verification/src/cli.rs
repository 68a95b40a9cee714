//! What the command line decides: the command and the mode that were asked for,
//! the host to launch, and the worker and the oracle to drain with.
use vstd::prelude::*;

use crate::host::{HostHandle, HostPhase, HostSpec};
use crate::oracle::CommandOracle;
use crate::switch::Mode;
use crate::text::{
    decimal, decimal_text, flat, int_text, law_integers_are_read_back, literals, opt_text,
    parse_unsigned, same, say, texts, unsigned_value, words, words_of,
};

verus! {

// --------------------------------------------------------------- the command

/// A command that was asked for.
#[derive(Debug, PartialEq)]
pub enum Invocation {
    ModeSet { mode: String },
    Status,
    Manifest,
    AdmitFile { file: String },
    Run,
    Serve,
    Explore,
    Stream,
}

/// The command that some arguments ask for; none where they ask for no command
/// that there is.
pub open spec fn asks_for(args: Seq<Seq<char>>, c: Invocation) -> bool {
    match c {
        Invocation::ModeSet { mode } => args == seq!["mode"@, "set"@, mode@],
        Invocation::Status => args == seq!["status"@],
        Invocation::Manifest => args == seq!["manifest"@],
        Invocation::AdmitFile { file } => args == seq!["admit"@, file@],
        Invocation::Run => args == seq!["run"@],
        Invocation::Serve => args == seq!["serve"@],
        Invocation::Explore => args == seq!["explore"@],
        Invocation::Stream => args == seq!["stream"@],
    }
}

proof fn lemma_shape(args: Seq<Seq<char>>, c: Invocation)
    requires
        asks_for(args, c),
    ensures
        match c {
            Invocation::ModeSet { mode } => args.len() == 3 && args[0] == "mode"@ && args[1]
                == "set"@,
            Invocation::AdmitFile { file } => args.len() == 2 && args[0] == "admit"@,
            _ => args.len() == 1,
        },
{
}

/// What arguments are read as: the command that they ask for, or none where they
/// ask for none.
pub open spec fn read_as(args: Seq<Seq<char>>, r: Option<Invocation>) -> bool {
    match r {
        Some(c) => asks_for(args, c),
        None => forall|c: Invocation| !#[trigger] asks_for(args, c),
    }
}

/// Reads the arguments of the program.
pub fn parse_args(args: &Vec<String>) -> (r: Option<Invocation>)
    ensures
        read_as(texts(args@), r),
{
    let ghost all = texts(args@);
    if args.len() == 3 {
        if same(args[0].as_str(), "mode") && same(args[1].as_str(), "set") {
            let mode: String = args[2].clone();
            assert(all =~= seq!["mode"@, "set"@, mode@]);
            return Some(Invocation::ModeSet { mode });
        }
        assert(all[0] == args@[0]@ && all[1] == args@[1]@);
        assert forall|c: Invocation| !asks_for(all, c) by {
            if asks_for(all, c) {
                lemma_shape(all, c);
            }
        }
        return None;
    }
    if args.len() == 2 {
        if same(args[0].as_str(), "admit") {
            let file: String = args[1].clone();
            assert(all =~= seq!["admit"@, file@]);
            return Some(Invocation::AdmitFile { file });
        }
        assert(all[0] == args@[0]@);
        assert forall|c: Invocation| !asks_for(all, c) by {
            if asks_for(all, c) {
                lemma_shape(all, c);
            }
        }
        return None;
    }
    if args.len() == 1 {
        let word: &str = args[0].as_str();
        assert(all[0] == args@[0]@);
        assert(all =~= seq![word@]);
        if same(word, "status") {
            return Some(Invocation::Status);
        }
        if same(word, "manifest") {
            return Some(Invocation::Manifest);
        }
        if same(word, "run") {
            return Some(Invocation::Run);
        }
        if same(word, "serve") {
            return Some(Invocation::Serve);
        }
        if same(word, "explore") {
            return Some(Invocation::Explore);
        }
        if same(word, "stream") {
            return Some(Invocation::Stream);
        }
        assert forall|c: Invocation| !asks_for(all, c) by {
            if asks_for(all, c) {
                lemma_shape(all, c);
                assert(all[0] == word@);
            }
        }
        return None;
    }
    assert forall|c: Invocation| !asks_for(all, c) by {
        if asks_for(all, c) {
            lemma_shape(all, c);
        }
    }
    None
}

/// The mode that a word names, or why it names none.
pub fn parse_mode(s: &str) -> (r: Result<Mode, String>)
    ensures
        if s@ == "queue"@ {
            r == Ok::<Mode, String>(Mode::Queue)
        } else if s@ == "explorer"@ {
            r == Ok::<Mode, String>(Mode::Explorer)
        } else {
            r matches Err(e) && e@ == flat(
                seq!["unknown mode '"@, s@, "' (use queue | explorer)"@],
            )
        },
{
    if same(s, "queue") {
        Ok(Mode::Queue)
    } else if same(s, "explorer") {
        Ok(Mode::Explorer)
    } else {
        let parts: Vec<&str> = vec!["unknown mode '", s, "' (use queue | explorer)"];
        assert(literals(parts@) =~= seq!["unknown mode '"@, s@, "' (use queue | explorer)"@]);
        Err(say(parts))
    }
}

/// The word for a mode.
pub open spec fn mode_word(m: Mode) -> Seq<char> {
    match m {
        Mode::Off => "off"@,
        Mode::Queue => "queue"@,
        Mode::Explorer => "explorer"@,
    }
}

/// The word for a mode.
pub fn mode_lower(m: Mode) -> (r: &'static str)
    ensures
        r@ == mode_word(m),
{
    match m {
        Mode::Off => "off",
        Mode::Queue => "queue",
        Mode::Explorer => "explorer",
    }
}

/// Every mode that a word can ask for has that word.
pub proof fn law_the_words_for_modes_are_read_back(m: Mode)
    ensures
        mode_word(m) == "queue"@ <==> m == Mode::Queue,
        mode_word(m) == "explorer"@ <==> m == Mode::Explorer,
{
    reveal_strlit("off");
    reveal_strlit("queue");
    reveal_strlit("explorer");
    assert("off"@.len() == 3 && "queue"@.len() == 5 && "explorer"@.len() == 8);
}

/// A time stamp: the seconds since the epoch behind a `t`.
pub fn stamp(seconds: u64) -> (r: String)
    ensures
        r@ == "t"@ + decimal(seconds as nat),
{
    let mut r: String = "t".to_owned();
    r.append(decimal_text(seconds).as_str());
    r
}

// ------------------------------------------------------------------ the host

/// The settings of the serving host as the environment gives them.
#[derive(Clone, Debug, PartialEq, Eq)]
pub struct HostEnv {
    pub ssh_target: Option<String>,
    pub queue_model: Option<String>,
    pub explorer_model: Option<String>,
    pub vllm_model: Option<String>,
    pub port: Option<String>,
    pub image: Option<String>,
    pub args: Option<String>,
}

/// The first of two settings that is there.
pub open spec fn either(a: Option<String>, b: Option<String>) -> Option<String> {
    match a {
        Some(s) => Some(s),
        None => b,
    }
}

/// The model to serve in a mode: the one set for it, or the one set for all.
pub open spec fn model_setting(mode: Mode, env: HostEnv) -> Option<String> {
    match mode {
        Mode::Queue => either(env.queue_model, env.vllm_model),
        Mode::Explorer => either(env.explorer_model, env.vllm_model),
        Mode::Off => env.vllm_model,
    }
}

/// The port to serve on.
pub open spec fn port_setting(port: Option<Seq<char>>) -> u16 {
    match port {
        Some(s) => match unsigned_value(s, 65535) {
            Some(p) => p as u16,
            None => 8000,
        },
        None => 8000,
    }
}

/// A setting, or what stands where there is none.
pub open spec fn or_default(s: Option<Seq<char>>, default: Seq<char>) -> Seq<char> {
    match s {
        Some(s) => s,
        None => default,
    }
}

/// The host to launch for a mode; none where no box is configured.
pub fn host_spec_for(mode: Mode, env: HostEnv) -> (r: Option<HostSpec>)
    ensures
        match r {
            Some(h) => {
                &&& env.ssh_target == Some(h.ssh_target)
                &&& h.host_id@ == mode_word(mode) + "-host"@
                &&& h.model@ == or_default(opt_text(model_setting(mode, env)), "default"@)
                &&& h.image@ == or_default(opt_text(env.image), "vllm/vllm-openai:latest"@)
                &&& h.port == port_setting(opt_text(env.port))
                &&& texts(h.extra_args@) == match env.args {
                    Some(args) => words(args@),
                    None => Seq::empty(),
                }
            },
            None => env.ssh_target is None,
        },
{
    let ssh_target: String = match env.ssh_target {
        Some(t) => t,
        None => {
            return None;
        },
    };
    let of_mode: Option<String> = match mode {
        Mode::Queue => env.queue_model,
        Mode::Explorer => env.explorer_model,
        Mode::Off => None,
    };
    let model: String = match of_mode {
        Some(m) => m,
        None => match env.vllm_model {
            Some(m) => m,
            None => "default".to_owned(),
        },
    };
    let port: u16 = match env.port {
        Some(s) => match parse_unsigned(s.as_str(), 65535) {
            Some(p) => p as u16,
            None => 8000,
        },
        None => 8000,
    };
    let image: String = match env.image {
        Some(i) => i,
        None => "vllm/vllm-openai:latest".to_owned(),
    };
    let extra_args: Vec<String> = match env.args {
        Some(args) => words_of(args.as_str()),
        None => {
            let none: Vec<String> = Vec::new();
            assert(texts(none@) =~= Seq::<Seq<char>>::empty());
            none
        },
    };
    let mut host_id: String = mode_lower(mode).to_owned();
    host_id.append("-host");
    Some(HostSpec { host_id, model, image, ssh_target, port, extra_args })
}

// ---------------------------------------------------- the worker, the oracle

/// Which worker to drain with.
#[derive(Clone, Copy, Debug, PartialEq, Eq, Structural)]
pub enum WorkerChoice {
    /// The host that the switch has made physical.
    Residency,
    /// The server that the environment names.
    OpenAi,
    /// The command that the environment names.
    Command,
    /// No model at all.
    Stub,
}

/// Which worker to drain with: a ready residency comes first, then a server,
/// then a command, and the stub is what is left.
pub fn choose_worker(
    phase: HostPhase,
    handle: &Option<HostHandle>,
    openai: bool,
    command: bool,
) -> (r: WorkerChoice)
    ensures
        r == if phase == HostPhase::Ready && handle is Some {
            WorkerChoice::Residency
        } else if openai {
            WorkerChoice::OpenAi
        } else if command {
            WorkerChoice::Command
        } else {
            WorkerChoice::Stub
        },
{
    if phase == HostPhase::Ready && handle.is_some() {
        WorkerChoice::Residency
    } else if openai {
        WorkerChoice::OpenAi
    } else if command {
        WorkerChoice::Command
    } else {
        WorkerChoice::Stub
    }
}

/// The oracle to drain with, which the worker cannot write: the command that is
/// set, or one that passes everything.
pub fn choose_oracle(command: Option<String>) -> (r: CommandOracle)
    ensures
        !r.worker_writable,
        r.command@ == or_default(opt_text(command), "true"@),
{
    match command {
        Some(command) => CommandOracle { command, worker_writable: false },
        None => CommandOracle { command: "true".to_owned(), worker_writable: false },
    }
}

// ---------------------------------------------------------------------- laws

/// Each command is asked for by its own words, and no words ask for two.
pub proof fn law_words_ask_for_one_command(args: Seq<Seq<char>>, a: Invocation, b: Invocation)
    requires
        asks_for(args, a),
        asks_for(args, b),
    ensures
        a is ModeSet <==> b is ModeSet,
        a is AdmitFile <==> b is AdmitFile,
        a is Status <==> b is Status,
        a is Manifest <==> b is Manifest,
        a is Run <==> b is Run,
        a is Serve <==> b is Serve,
        a is Explore <==> b is Explore,
        a is Stream <==> b is Stream,
        a matches Invocation::ModeSet { mode } ==> b->mode@ == mode@ && args.last() == mode@,
        a matches Invocation::AdmitFile { file } ==> b->file@ == file@ && args.last() == file@,
        a is Status ==> args == seq!["status"@],
        a is Manifest ==> args == seq!["manifest"@],
        a is Run ==> args == seq!["run"@],
        a is Serve ==> args == seq!["serve"@],
        a is Explore ==> args == seq!["explore"@],
        a is Stream ==> args == seq!["stream"@],
        a is ModeSet ==> args[0] == "mode"@ && args[1] == "set"@ && args.len() == 3,
        a is AdmitFile ==> args[0] == "admit"@ && args.len() == 2,
{
    lemma_shape(args, a);
    lemma_shape(args, b);
    reveal_strlit("status");
    reveal_strlit("manifest");
    reveal_strlit("run");
    reveal_strlit("serve");
    reveal_strlit("explore");
    reveal_strlit("stream");
    assert("status"@.len() == 6 && "manifest"@.len() == 8 && "run"@.len() == 3 && "serve"@.len()
        == 5 && "explore"@.len() == 7 && "stream"@.len() == 6);
    assert("status"@[2] == 'a' && "stream"@[2] == 'r');
    if args.len() == 1 {
        let w = args[0];
        assert(a is Status ==> w == "status"@);
        assert(b is Status ==> w == "status"@);
        assert(a is Manifest ==> w == "manifest"@);
        assert(b is Manifest ==> w == "manifest"@);
        assert(a is Run ==> w == "run"@);
        assert(b is Run ==> w == "run"@);
        assert(a is Serve ==> w == "serve"@);
        assert(b is Serve ==> w == "serve"@);
        assert(a is Explore ==> w == "explore"@);
        assert(b is Explore ==> w == "explore"@);
        assert(a is Stream ==> w == "stream"@);
        assert(b is Stream ==> w == "stream"@);
    }
}

/// The words of the command line are read: each of them gives the command it is for.
pub proof fn law_every_command_can_be_asked_for(
    args: Seq<Seq<char>>,
    r: Option<Invocation>,
    mode: String,
    file: String,
)
    requires
        read_as(args, r),
    ensures
        args == seq!["status"@] ==> r is Some,
        args == seq!["manifest"@] ==> r is Some,
        args == seq!["run"@] ==> r is Some,
        args == seq!["serve"@] ==> r is Some,
        args == seq!["explore"@] ==> r is Some,
        args == seq!["stream"@] ==> r is Some,
        args == seq!["mode"@, "set"@, mode@] ==> r is Some && r->0 is ModeSet,
        args == seq!["admit"@, file@] ==> r is Some && r->0 is AdmitFile,
        args.len() == 0 || args.len() > 3 ==> r is None,
{
    if args == seq!["status"@] {
        assert(asks_for(args, Invocation::Status));
    }
    if args == seq!["manifest"@] {
        assert(asks_for(args, Invocation::Manifest));
    }
    if args == seq!["run"@] {
        assert(asks_for(args, Invocation::Run));
    }
    if args == seq!["serve"@] {
        assert(asks_for(args, Invocation::Serve));
    }
    if args == seq!["explore"@] {
        assert(asks_for(args, Invocation::Explore));
    }
    if args == seq!["stream"@] {
        assert(asks_for(args, Invocation::Stream));
    }
    if args == seq!["mode"@, "set"@, mode@] {
        assert(asks_for(args, Invocation::ModeSet { mode }));
    }
    if args == seq!["admit"@, file@] {
        assert(asks_for(args, Invocation::AdmitFile { file }));
    }
    if let Some(c) = r {
        lemma_shape(args, c);
    }
}

/// The word for a mode is read as that mode, and no other word is read as one.
pub proof fn law_a_mode_is_read_from_its_word(s: &str, r: Result<Mode, String>)
    requires
        call_ensures(parse_mode, (s,), r),
    ensures
        r matches Ok(mode) ==> s@ == mode_word(mode) && mode != Mode::Off,
        s@ == "queue"@ ==> r == Ok::<Mode, String>(Mode::Queue),
        s@ == "explorer"@ ==> r == Ok::<Mode, String>(Mode::Explorer),
        s@ != "queue"@ && s@ != "explorer"@ ==> r is Err,
        mode_word(Mode::Off) == "off"@,
{
    law_the_words_for_modes_are_read_back(Mode::Queue);
    law_the_words_for_modes_are_read_back(Mode::Explorer);
}

/// A mode is served by the model that is set for it; else by the one set for all;
/// else by the default.
pub proof fn law_a_mode_is_served_by_its_model(
    mode: Mode,
    env: HostEnv,
    r: Option<HostSpec>,
    port: u16,
)
    requires
        call_ensures(host_spec_for, (mode, env), r),
    ensures
        r is Some <==> env.ssh_target is Some,
        r matches Some(h) ==> {
            &&& h.ssh_target@ == env.ssh_target->0@
            &&& mode == Mode::Queue && env.queue_model is Some ==> h.model@ == env.queue_model->0@
            &&& mode == Mode::Explorer && env.explorer_model is Some ==> h.model@
                == env.explorer_model->0@
            &&& (mode == Mode::Queue && env.queue_model is None || mode == Mode::Explorer
                && env.explorer_model is None || mode == Mode::Off) && env.vllm_model is Some
                ==> h.model@ == env.vllm_model->0@
            &&& (mode == Mode::Queue && env.queue_model is None || mode == Mode::Explorer
                && env.explorer_model is None || mode == Mode::Off) && env.vllm_model is None
                ==> h.model@ == "default"@
            &&& env.port matches Some(p) ==> (unsigned_value(p@, 65535) is None ==> h.port == 8000)
            &&& env.image matches Some(i) ==> h.image@ == i@
            &&& env.image is None ==> h.image@ == "vllm/vllm-openai:latest"@
            &&& env.port is None ==> h.port == 8000
            &&& env.port matches Some(p) ==> (p@ == int_text(port as int) ==> h.port == port)
            &&& env.args is None ==> h.extra_args@.len() == 0
            &&& env.args matches Some(a) ==> texts(h.extra_args@) == words(a@)
            &&& mode == Mode::Queue ==> h.host_id@ == "queue"@ + "-host"@
            &&& mode == Mode::Explorer ==> h.host_id@ == "explorer"@ + "-host"@
        },
{
    law_integers_are_read_back(port as int, Seq::empty(), 0);
    if let Some(h) = r {
        assert(texts(h.extra_args@).len() == h.extra_args@.len());
    }
}

/// The worker is the best that there is: a ready residency, else a server, else a
/// command, else the stub.
pub proof fn law_the_best_worker_is_chosen(
    phase: HostPhase,
    handle: Option<HostHandle>,
    openai: bool,
    command: bool,
    r: WorkerChoice,
)
    requires
        call_ensures(choose_worker, (phase, &handle, openai, command), r),
    ensures
        r == WorkerChoice::Residency <==> phase == HostPhase::Ready && handle is Some,
        r == WorkerChoice::OpenAi <==> !(phase == HostPhase::Ready && handle is Some) && openai,
        r == WorkerChoice::Command <==> !(phase == HostPhase::Ready && handle is Some) && !openai
            && command,
        r == WorkerChoice::Stub <==> !(phase == HostPhase::Ready && handle is Some) && !openai
            && !command,
{
}

/// The oracle is one that the worker cannot write, with the command that is set.
pub proof fn law_the_chosen_oracle_is_protected(command: Option<String>, r: CommandOracle)
    requires
        call_ensures(choose_oracle, (command,), r),
    ensures
        !r.worker_writable,
        command matches Some(c) ==> r.command@ == c@,
        command is None ==> r.command@ == "true"@,
{
}

} // verus!
