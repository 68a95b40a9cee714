//! How a run leaves the box: as a branch in the declared repository, or as a
//! patch of what it changed. The git commands are decided here, one after the
//! other; running them is left to the caller, who reports how each went.
use vstd::prelude::*;

use crate::interface::{
    law_a_url_tells_its_scheme_and_host, scheme_and_host, url_scheme_and_host, DeliveryResult,
    Integration, IntegrationMethod,
};
use crate::text::{
    alphanumeric, alphanumeric_beyond_ascii, blank, chars_of, is_alphanumeric, is_blank,
    law_prefixes_are_taken_off, law_suffixes_are_taken_off, lossy, lossy_text, opt_text, owned,
    safe, safe_name, same, texts, trim, trim_end_matches, trim_start_matches, trimmed,
    white_space, without_prefixes, without_suffixes,
};

verus! {

// --------------------------------------------------------------- the branch

/// The reference of a unit as part of a branch name: letters, digits, hyphens
/// and slashes stay, every other character becomes an underscore.
pub open spec fn branch_segment(unit_ref: Seq<char>) -> Seq<char> {
    unit_ref.map_values(
        |c: char|
            if alphanumeric(c) || c == '-' || c == '/' {
                c
            } else {
                '_'
            },
    )
}

/// The branch that a run lands on: the declared one, or one named after the unit.
pub open spec fn branch_for(declared: Seq<char>, unit_ref: Seq<char>) -> Seq<char> {
    if blank(declared) {
        "spark/"@ + branch_segment(unit_ref)
    } else {
        declared
    }
}

/// The branch that a run lands on.
pub fn branch_name(declared: &str, unit_ref: &str) -> (r: String)
    ensures
        r@ == branch_for(declared@, unit_ref@),
{
    if !is_blank(declared) {
        return declared.to_owned();
    }
    let v: Vec<char> = chars_of(unit_ref);
    let mut name: String = String::new();
    let mut i: usize = 0;
    while i < v.len()
        invariant
            i <= v@.len(),
            v@ == unit_ref@,
            name@ == branch_segment(unit_ref@.take(i as int)),
        decreases v@.len() - i,
    {
        let c: char = v[i];
        if is_alphanumeric(c) || c == '-' || c == '/' {
            name.push(c);
        } else {
            name.push('_');
        }
        i += 1;
        assert(name@ =~= branch_segment(unit_ref@.take(i as int)));
    }
    assert(unit_ref@.take(i as int) =~= unit_ref@);
    let mut r: String = "spark/".to_owned();
    r.append(name.as_str());
    r
}

// ---------------------------------------------------------- the pull request

/// The page that compares a branch with its base, for a pull request on a forge
/// that is known; nothing for any other delivery.
pub open spec fn compare_page(
    url: Seq<char>,
    method: IntegrationMethod,
    target_ref: Seq<char>,
    branch: Seq<char>,
    pushed: bool,
) -> Option<Seq<char>> {
    if method == IntegrationMethod::PullRequest && pushed && scheme_and_host(url) == (
        "https"@,
        Some("github.com"@),
    ) {
        Some(
            "https://github.com/"@ + without_prefixes(
                without_suffixes(url, ".git"@),
                "https://github.com/"@,
            ) + "/compare/"@ + if blank(target_ref) {
                "main"@
            } else {
                target_ref
            } + "..."@ + branch + "?expand=1"@,
        )
    } else {
        None
    }
}

/// The page that compares a branch with its base, where there is one.
pub fn compare_url(url: &str, integration: &Integration, branch: &str, pushed: bool) -> (r: Option<
    String,
>)
    ensures
        opt_text(r) == compare_page(
            url@,
            integration.method,
            integration.target_ref@,
            branch@,
            pushed,
        ),
{
    if integration.method != IntegrationMethod::PullRequest || !pushed {
        return None;
    }
    let (scheme, host) = url_scheme_and_host(url);
    let known: bool = match host {
        Some(h) => same(scheme.as_str(), "https") && same(h.as_str(), "github.com"),
        None => false,
    };
    if !known {
        return None;
    }
    let bare: String = trim_end_matches(url, ".git");
    let repo: String = trim_start_matches(bare.as_str(), "https://github.com/");
    let mut r: String = "https://github.com/".to_owned();
    r.append(repo.as_str());
    r.append("/compare/");
    if is_blank(integration.target_ref.as_str()) {
        r.append("main");
    } else {
        r.append(integration.target_ref.as_str());
    }
    r.append("...");
    r.append(branch);
    r.append("?expand=1");
    Some(r)
}

// --------------------------------------------------------- the git commands

/// Stages everything but build output.
pub open spec fn stage_command() -> Seq<Seq<char>> {
    seq![
        "add"@,
        "-A"@,
        "--"@,
        "."@,
        ":!target"@,
        ":!node_modules"@,
        ":!bin"@,
        ":!obj"@,
        ":!.spark"@,
        ":!.git"@,
    ]
}

/// Stages everything but build output.
pub fn stage_args() -> (r: Vec<String>)
    ensures
        texts(r@) == stage_command(),
{
    let r: Vec<String> = owned(
        vec![
            "add",
            "-A",
            "--",
            ".",
            ":!target",
            ":!node_modules",
            ":!bin",
            ":!obj",
            ":!.spark",
            ":!.git",
        ],
    );
    assert(texts(r@) =~= stage_command());
    r
}

/// Shows what is staged, but for build output.
pub fn diff_args() -> (r: Vec<String>)
    ensures
        texts(r@) == seq![
            "diff"@,
            "--cached"@,
            "--"@,
            "."@,
            ":!target"@,
            ":!node_modules"@,
            ":!bin"@,
            ":!obj"@,
            ":!.spark"@,
            ":!.git"@,
        ],
{
    let r: Vec<String> = owned(
        vec![
            "diff",
            "--cached",
            "--",
            ".",
            ":!target",
            ":!node_modules",
            ":!bin",
            ":!obj",
            ":!.spark",
            ":!.git",
        ],
    );
    assert(texts(r@) =~= seq![
        "diff"@,
        "--cached"@,
        "--"@,
        "."@,
        ":!target"@,
        ":!node_modules"@,
        ":!bin"@,
        ":!obj"@,
        ":!.spark"@,
        ":!.git"@,
    ]);
    r
}

/// Clones the declared repository into a workspace.
pub fn clone_args(url: &str, workspace: &str) -> (r: Vec<String>)
    ensures
        texts(r@) == seq!["clone"@, "--quiet"@, url@, workspace@],
{
    let r: Vec<String> = owned(vec!["clone", "--quiet", url, workspace]);
    assert(texts(r@) =~= seq!["clone"@, "--quiet"@, url@, workspace@]);
    r
}

/// What is said where the clone fails.
pub fn clone_failure(url: &str) -> (r: String)
    ensures
        r@ == "git clone "@ + url@ + " failed"@,
{
    let mut r: String = "git clone ".to_owned();
    r.append(url);
    r.append(" failed");
    r
}

/// Checks out the base of a clone; nothing where none is declared.
pub fn base_args(base_ref: &str) -> (r: Option<Vec<String>>)
    ensures
        match r {
            Some(args) => !blank(base_ref@) && texts(args@) == seq![
                "checkout"@,
                "--quiet"@,
                base_ref@,
            ],
            None => blank(base_ref@),
        },
{
    if is_blank(base_ref) {
        None
    } else {
        let args: Vec<String> = owned(vec!["checkout", "--quiet", base_ref]);
        assert(texts(args@) =~= seq!["checkout"@, "--quiet"@, base_ref@]);
        Some(args)
    }
}

/// Clones a local checkout as the seed of a workspace.
pub fn seed_clone_args(seed: &str, workspace: &str) -> (r: Vec<String>)
    ensures
        texts(r@) == seq![
            "clone"@,
            "--quiet"@,
            "--local"@,
            "--no-hardlinks"@,
            seed@,
            workspace@,
        ],
{
    let r: Vec<String> = owned(
        vec!["clone", "--quiet", "--local", "--no-hardlinks", seed, workspace],
    );
    assert(texts(r@) =~= seq![
        "clone"@,
        "--quiet"@,
        "--local"@,
        "--no-hardlinks"@,
        seed@,
        workspace@,
    ]);
    r
}

/// The names that are left behind where a seed is copied.
pub open spec fn left_behind(name: Seq<char>) -> bool {
    ||| name == "target"@
    ||| name == ".git"@
    ||| name == "node_modules"@
    ||| name == "bin"@
    ||| name == "obj"@
    ||| name == ".spark"@
}

/// Whether a name is left behind where a seed is copied.
pub fn is_left_behind(name: &str) -> (r: bool)
    ensures
        r == left_behind(name@),
{
    same(name, "target") || same(name, ".git") || same(name, "node_modules") || same(name, "bin")
        || same(name, "obj") || same(name, ".spark")
}

/// Commits everything in a fresh repository, so that a later diff shows exactly
/// what a unit changed.
pub open spec fn baseline_commands() -> Seq<Seq<Seq<char>>> {
    seq![
        seq!["init"@, "-q"@],
        seq!["add"@, "-A"@],
        seq![
            "-c"@,
            "user.email=spark@local"@,
            "-c"@,
            "user.name=spark"@,
            "commit"@,
            "-q"@,
            "-m"@,
            "seed baseline"@,
            "--allow-empty"@,
        ],
    ]
}

/// The commands that make a baseline.
pub fn baseline_args() -> (r: Vec<Vec<String>>)
    ensures
        r@.len() == baseline_commands().len(),
        forall|i: int| 0 <= i < r@.len() ==> texts((#[trigger] r@[i])@) == baseline_commands()[i],
{
    let init: Vec<String> = owned(vec!["init", "-q"]);
    assert(texts(init@) =~= baseline_commands()[0]);
    let stage: Vec<String> = owned(vec!["add", "-A"]);
    assert(texts(stage@) =~= baseline_commands()[1]);
    let commit: Vec<String> = owned(
        vec![
            "-c",
            "user.email=spark@local",
            "-c",
            "user.name=spark",
            "commit",
            "-q",
            "-m",
            "seed baseline",
            "--allow-empty",
        ],
    );
    assert(texts(commit@) =~= baseline_commands()[2]);
    let mut r: Vec<Vec<String>> = Vec::new();
    r.push(init);
    r.push(stage);
    r.push(commit);
    r
}

/// The name of the patch of a unit.
pub open spec fn patch_file(unit_ref: Seq<char>) -> Seq<char> {
    safe_name(unit_ref) + ".patch"@
}

/// The name of the patch of a unit.
pub fn patch_name(unit_ref: &str) -> (r: String)
    ensures
        r@ == patch_file(unit_ref@),
{
    let mut r: String = safe(unit_ref);
    r.append(".patch");
    r
}

// -------------------------------------------------------------- the delivery

/// Where a delivery stands: the command to run next, or the end.
#[derive(Clone, Copy, Debug, PartialEq, Eq, Structural)]
pub enum GitStep {
    Branch,
    Stage,
    Commit,
    Head,
    Push,
    Finished,
}

/// A delivery into the declared repository under way.
#[derive(Debug, PartialEq)]
pub struct RepositoryDelivery {
    pub unit_ref: String,
    pub url: String,
    pub integration: Integration,
    pub branch: String,
    pub commit: String,
    pub step: GitStep,
    /// Where the run landed, once it has.
    pub landed: Option<DeliveryResult>,
}

/// The arguments of the command of a step.
pub open spec fn step_command(
    step: GitStep,
    branch: Seq<char>,
    unit_ref: Seq<char>,
) -> Seq<Seq<char>> {
    match step {
        GitStep::Branch => seq!["checkout"@, "-q"@, "-B"@, branch],
        GitStep::Stage => stage_command(),
        GitStep::Commit => seq![
            "-c"@,
            "user.email=spark@local"@,
            "-c"@,
            "user.name=spark"@,
            "commit"@,
            "-q"@,
            "-m"@,
            "spark: "@ + unit_ref,
        ],
        GitStep::Head => seq!["rev-parse"@, "HEAD"@],
        GitStep::Push => seq!["push"@, "--quiet"@, "origin"@, "HEAD:refs/heads/"@ + branch],
        GitStep::Finished => Seq::empty(),
    }
}

impl RepositoryDelivery {
    /// The delivery of the same unit to the same place.
    pub open spec fn same_target(&self, other: &RepositoryDelivery) -> bool {
        &&& self.unit_ref == other.unit_ref
        &&& self.url == other.url
        &&& self.integration == other.integration
        &&& self.branch == other.branch
    }

    /// Begins a delivery. Without a repository in the workspace there is nothing
    /// to deliver.
    pub fn begin(has_repository: bool, url: String, integration: Integration, unit_ref: String) -> (r:
        Self)
        ensures
            r.unit_ref == unit_ref,
            r.url == url,
            r.integration == integration,
            r.branch@ == branch_for(integration.branch_name@, unit_ref@),
            r.landed is None,
            r.step == if has_repository {
                GitStep::Branch
            } else {
                GitStep::Finished
            },
    {
        let branch: String = branch_name(integration.branch_name.as_str(), unit_ref.as_str());
        RepositoryDelivery {
            unit_ref,
            url,
            integration,
            branch,
            commit: String::new(),
            step: if has_repository {
                GitStep::Branch
            } else {
                GitStep::Finished
            },
            landed: None,
        }
    }

    /// The arguments of the command to run next; none at the end.
    pub fn args(&self) -> (r: Vec<String>)
        ensures
            texts(r@) == step_command(self.step, self.branch@, self.unit_ref@),
    {
        let r: Vec<String> = match self.step {
            GitStep::Branch => owned(vec!["checkout", "-q", "-B", self.branch.as_str()]),
            GitStep::Stage => stage_args(),
            GitStep::Commit => {
                let mut message: String = "spark: ".to_owned();
                message.append(self.unit_ref.as_str());
                owned(
                    vec![
                        "-c",
                        "user.email=spark@local",
                        "-c",
                        "user.name=spark",
                        "commit",
                        "-q",
                        "-m",
                        message.as_str(),
                    ],
                )
            },
            GitStep::Head => owned(vec!["rev-parse", "HEAD"]),
            GitStep::Push => {
                let mut refspec: String = "HEAD:refs/heads/".to_owned();
                refspec.append(self.branch.as_str());
                owned(vec!["push", "--quiet", "origin", refspec.as_str()])
            },
            GitStep::Finished => Vec::new(),
        };
        assert(texts(r@) =~= step_command(self.step, self.branch@, self.unit_ref@));
        r
    }

    /// Takes note of how the command went. Branching and staging are best effort.
    /// A commit that fails means that nothing changed, and without the id of the
    /// commit there is nothing to report; either ends the delivery with no ref.
    /// A push that fails still leaves the branch and the commit to report.
    pub fn advance(&mut self, ok: bool, stdout: &[u8])
        ensures
            final(self).same_target(old(self)),
            match old(self).step {
                GitStep::Branch => final(self).step == GitStep::Stage && final(self).landed
                    == old(self).landed && final(self).commit == old(self).commit,
                GitStep::Stage => final(self).step == GitStep::Commit && final(self).landed
                    == old(self).landed && final(self).commit == old(self).commit,
                GitStep::Commit => final(self).step == (if ok {
                    GitStep::Head
                } else {
                    GitStep::Finished
                }) && final(self).landed == old(self).landed && final(self).commit
                    == old(self).commit,
                GitStep::Head => final(self).landed == old(self).landed && if ok {
                    final(self).step == GitStep::Push && final(self).commit@ == trim(
                        lossy_text(stdout@),
                    )
                } else {
                    final(self).step == GitStep::Finished
                },
                GitStep::Push => {
                    &&& final(self).step == GitStep::Finished
                    &&& final(self).commit == old(self).commit
                    &&& final(self).landed matches Some(d) && d.branch == old(self).branch
                        && d.commit == old(self).commit && opt_text(d.pr_url) == compare_page(
                        old(self).url@,
                        old(self).integration.method,
                        old(self).integration.target_ref@,
                        old(self).branch@,
                        ok,
                    )
                },
                GitStep::Finished => *final(self) == *old(self),
            },
    {
        match self.step {
            GitStep::Branch => {
                self.step = GitStep::Stage;
            },
            GitStep::Stage => {
                self.step = GitStep::Commit;
            },
            GitStep::Commit => {
                self.step = if ok {
                    GitStep::Head
                } else {
                    GitStep::Finished
                };
            },
            GitStep::Head => {
                if ok {
                    self.commit = trimmed(lossy(stdout).as_str());
                    self.step = GitStep::Push;
                } else {
                    self.step = GitStep::Finished;
                }
            },
            GitStep::Push => {
                let pr_url: Option<String> = compare_url(
                    self.url.as_str(),
                    &self.integration,
                    self.branch.as_str(),
                    ok,
                );
                self.landed = Some(
                    DeliveryResult {
                        branch: self.branch.clone(),
                        commit: self.commit.clone(),
                        pr_url,
                    },
                );
                self.step = GitStep::Finished;
            },
            GitStep::Finished => {},
        }
    }
}

// ---------------------------------------------------------------------- laws

/// A plain push opens no pull request, whatever the repository, and neither does
/// one whose branch did not arrive, nor one to a forge that is not known.
pub proof fn law_only_pushed_pull_requests_have_a_page(
    url: Seq<char>,
    method: IntegrationMethod,
    target_ref: Seq<char>,
    branch: Seq<char>,
    pushed: bool,
)
    ensures
        compare_page(url, method, target_ref, branch, pushed) is Some <==> method
            == IntegrationMethod::PullRequest && pushed && scheme_and_host(url) == (
            "https"@,
            Some("github.com"@),
        ),
{
}

/// A declared branch is kept; a run without one lands on a branch named after its
/// unit, in which ASCII letters, digits, hyphens and slashes stay and every other
/// ASCII character is an underscore.
pub proof fn law_a_run_lands_on_its_branch(declared: Seq<char>, unit_ref: Seq<char>, i: int)
    requires
        0 <= i < unit_ref.len(),
    ensures
        (exists|k: int| 0 <= k < declared.len() && !white_space(#[trigger] declared[k]))
            ==> branch_for(declared, unit_ref) == declared,
        (forall|k: int| 0 <= k < declared.len() ==> white_space(#[trigger] declared[k])) ==> {
            let branch = branch_for(declared, unit_ref);
            let c = unit_ref[i];
            &&& branch.len() == 6 + unit_ref.len()
            &&& branch.take(6) == "spark/"@
            &&& ('a' <= c <= 'z') || ('A' <= c <= 'Z') || ('0' <= c <= '9') || c == '-' || c == '/'
                ==> branch[6 + i] == c
            &&& (c as int) < 128 && !(('a' <= c <= 'z') || ('A' <= c <= 'Z') || ('0' <= c <= '9')
                || c == '-' || c == '/') ==> branch[6 + i] == '_'
            &&& (c as int) >= 128 ==> (branch[6 + i] == c <==> alphanumeric_beyond_ascii(c)) && (
            branch[6 + i] == c || branch[6 + i] == '_')
        },
{
    reveal_strlit("spark/");
    if blank(declared) {
        assert(branch_for(declared, unit_ref).take(6) =~= "spark/"@);
    }
}

/// A pull request on the known forge has the page that compares its branch with the
/// base that is declared, or with `main`; the repository is that of the URL, with or
/// without its suffix.
pub proof fn law_a_pull_request_has_the_page_of_its_repository(
    repo: Seq<char>,
    base: Seq<char>,
    branch: Seq<char>,
)
    requires
        repo.len() < 4 || repo.skip(repo.len() - 4) != ".git"@,
        ("https://github.com/"@ + repo).skip(("https://github.com/"@ + repo).len() - 4) != ".git"@,
        repo.len() < 19 || repo.take(19) != "https://github.com/"@,
    ensures
        ({
            let page = "https://github.com/"@ + repo + "/compare/"@;
            let url = "https://github.com/"@ + repo;
            let pr = IntegrationMethod::PullRequest;
            &&& (exists|k: int| 0 <= k < base.len() && !white_space(#[trigger] base[k])) ==> {
                &&& compare_page(url, pr, base, branch, true) == Some(
                    page + base + "..."@ + branch + "?expand=1"@,
                )
                &&& compare_page(url + ".git"@, pr, base, branch, true) == Some(
                    page + base + "..."@ + branch + "?expand=1"@,
                )
            }
            &&& (forall|k: int| 0 <= k < base.len() ==> white_space(#[trigger] base[k]))
                ==> compare_page(url, pr, base, branch, true) == Some(
                page + "main"@ + "..."@ + branch + "?expand=1"@,
            )
            &&& compare_page(url, pr, base, branch, false) is None
            &&& compare_page(url, IntegrationMethod::PushBranch, base, branch, true) is None
        }),
{
    let root = "https://github.com/"@;
    let url = root + repo;
    reveal_strlit("https://github.com/");
    reveal_strlit("https://");
    reveal_strlit("github.com");
    reveal_strlit(".git");
    assert(root.len() == 19);
    let host = "github.com"@;
    assert(root =~= "https://"@ + (host + seq!['/']));
    assert(url =~= "https://"@ + (host + (seq!['/'] + repo)));
    assert(url + ".git"@ =~= "https://"@ + (host + (seq!['/'] + repo + ".git"@)));
    assert(!host.contains('/')) by {
        if host.contains('/') {
            let k = choose|k: int| 0 <= k < host.len() && host[k] == '/';
            assert(host[0] == 'g' && host[1] == 'i' && host[2] == 't' && host[3] == 'h' && host[4]
                == 'u' && host[5] == 'b' && host[6] == '.' && host[7] == 'c' && host[8] == 'o'
                && host[9] == 'm');
        }
    }
    assert(!host.contains(':')) by {
        if host.contains(':') {
            let k = choose|k: int| 0 <= k < host.len() && host[k] == ':';
            assert(host[0] == 'g' && host[1] == 'i' && host[2] == 't' && host[3] == 'h' && host[4]
                == 'u' && host[5] == 'b' && host[6] == '.' && host[7] == 'c' && host[8] == 'o'
                && host[9] == 'm');
        }
    }
    law_a_url_tells_its_scheme_and_host(host, seq!['/'] + repo, Seq::empty());
    law_a_url_tells_its_scheme_and_host(host, seq!['/'] + repo + ".git"@, Seq::empty());
    law_suffixes_are_taken_off(url, ".git"@);
    law_prefixes_are_taken_off(repo, root);
}

/// The commands of a delivery make the branch, stage the changes but for build
/// output, commit them in the name of the unit, ask for the commit, and push it to
/// the branch.
pub proof fn law_a_delivery_lands_on_its_branch(branch: Seq<char>, unit_ref: Seq<char>)
    ensures
        step_command(GitStep::Branch, branch, unit_ref) == seq![
            "checkout"@,
            "-q"@,
            "-B"@,
            branch,
        ],
        step_command(GitStep::Stage, branch, unit_ref) == seq![
            "add"@,
            "-A"@,
            "--"@,
            "."@,
            ":!target"@,
            ":!node_modules"@,
            ":!bin"@,
            ":!obj"@,
            ":!.spark"@,
            ":!.git"@,
        ],
        step_command(GitStep::Commit, branch, unit_ref) == seq![
            "-c"@,
            "user.email=spark@local"@,
            "-c"@,
            "user.name=spark"@,
            "commit"@,
            "-q"@,
            "-m"@,
            "spark: "@ + unit_ref,
        ],
        step_command(GitStep::Head, branch, unit_ref) == seq!["rev-parse"@, "HEAD"@],
        step_command(GitStep::Push, branch, unit_ref) == seq![
            "push"@,
            "--quiet"@,
            "origin"@,
            "HEAD:refs/heads/"@ + branch,
        ],
        step_command(GitStep::Finished, branch, unit_ref).len() == 0,
{
}

/// Build output is left out of what is staged, and out of what is copied from a seed.
pub proof fn law_build_output_is_left_out(name: Seq<char>)
    ensures
        left_behind(name) <==> name == "target"@ || name == "node_modules"@ || name == "bin"@
            || name == "obj"@ || name == ".spark"@ || name == ".git"@,
        left_behind(name) ==> stage_command().contains(":!"@ + name),
{
    reveal_strlit(":!");
    reveal_strlit("target");
    reveal_strlit("node_modules");
    reveal_strlit("bin");
    reveal_strlit("obj");
    reveal_strlit(".spark");
    reveal_strlit(".git");
    reveal_strlit(":!target");
    reveal_strlit(":!node_modules");
    reveal_strlit(":!bin");
    reveal_strlit(":!obj");
    reveal_strlit(":!.spark");
    reveal_strlit(":!.git");
    let s = stage_command();
    assert(s[4] =~= ":!"@ + "target"@);
    assert(s[5] =~= ":!"@ + "node_modules"@);
    assert(s[6] =~= ":!"@ + "bin"@);
    assert(s[7] =~= ":!"@ + "obj"@);
    assert(s[8] =~= ":!"@ + ".spark"@);
    assert(s[9] =~= ":!"@ + ".git"@);
}

/// A baseline is a fresh repository with everything in it committed, also where
/// there is nothing.
pub proof fn law_a_baseline_commits_everything()
    ensures
        baseline_commands().len() == 3,
        baseline_commands()[0] == seq!["init"@, "-q"@],
        baseline_commands()[1] == seq!["add"@, "-A"@],
        baseline_commands()[2] == seq![
            "-c"@,
            "user.email=spark@local"@,
            "-c"@,
            "user.name=spark"@,
            "commit"@,
            "-q"@,
            "-m"@,
            "seed baseline"@,
            "--allow-empty"@,
        ],
{
}

/// The patch of a unit is named after it.
pub proof fn law_a_patch_is_named_after_its_unit(unit_ref: Seq<char>)
    requires
        forall|i: int|
            0 <= i < unit_ref.len() ==> ('a' <= (#[trigger] unit_ref[i]) <= 'z') || ('A'
                <= unit_ref[i] <= 'Z') || ('0' <= unit_ref[i] <= '9') || unit_ref[i] == '-',
    ensures
        patch_file(unit_ref) == unit_ref + ".patch"@,
{
    assert(safe_name(unit_ref) =~= unit_ref);
}

} // verus!
