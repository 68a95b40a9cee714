//! The work-unit interface: the seam between a producer of work and this
//! executor. A [`WorkUnit`] travels in by value, a [`VerdictEvent`] travels out,
//! and a [`CapabilityManifest`] is published out of band and matched against a
//! unit's requirements before dispatch.
use vstd::prelude::*;

use crate::json::{last_member, opt_json, Json, JsonView};
use crate::sorted::{increasing, StrMap, StrSet};
use crate::text::{
    before_stop, blank, cut, first_stop, is_blank, join, joined, law_a_prefix_is_taken_off,
    law_a_text_is_cut_at_the_first, lemma_first_stop, opt_text, same, split_once, strip_prefix,
    stripped, texts, white_space,
};

pub mod canonical;

verus! {

// ------------------------------------------------------------------- binding

/// The pinned model axis of a whole unit: identity, served quantization and
/// invocation parameters. Two units at the same model name but different
/// quantization are at different bindings.
#[derive(Debug, Default, PartialEq, Eq)]
pub struct ModelBinding {
    /// The serving provider, part of the capability identifier.
    pub provider: String,
    pub model: String,
    /// The pinned revision, carried for attribution; not part of the match key.
    pub revision: Option<String>,
    pub quantization: String,
    pub params: StrMap<String>,
}

/// `name=value` for each invocation parameter, in order of the names.
pub open spec fn param_texts(pairs: Seq<(Seq<char>, String)>) -> Seq<Seq<char>> {
    pairs.map_values(|p: (Seq<char>, String)| p.0 + "="@ + p.1@)
}

/// `binding:<provider>/<model-id>@<quantization>`.
pub open spec fn binding_id(
    provider: Seq<char>,
    model: Seq<char>,
    quantization: Seq<char>,
) -> Seq<char> {
    "binding:"@ + provider + "/"@ + model + "@"@ + quantization
}

fn binding_id_text(provider: &str, model: &str, quantization: &str) -> (r: String)
    ensures
        r@ == binding_id(provider@, model@, quantization@),
{
    let mut r: String = "binding:".to_owned();
    r.append(provider);
    r.append("/");
    r.append(model);
    r.append("@");
    r.append(quantization);
    r
}

impl ModelBinding {
    /// The identity as text: `<provider>/<model>@<quantization>[<params>]`.
    pub open spec fn key_text(&self) -> Seq<char> {
        self.provider@ + "/"@ + self.model@ + "@"@ + self.quantization@ + "["@ + joined(
            param_texts(self.params.pairs()),
            ","@,
        ) + "]"@
    }

    /// Whether the other binding has the same content, field by field.
    pub open spec fn same_as(&self, other: &ModelBinding) -> bool {
        &&& self.provider == other.provider
        &&& self.model == other.model
        &&& self.revision == other.revision
        &&& self.quantization == other.quantization
        &&& self.params.pairs() == other.params.pairs()
    }

    /// The identity two cells must share to be binding-homogeneous.
    pub fn key(&self) -> (r: String)
        ensures
            r@ == self.key_text(),
    {
        let mut params: Vec<String> = Vec::new();
        let n: usize = self.params.len();
        let mut i: usize = 0;
        while i < n
            invariant
                n == self.params.pairs().len(),
                i <= n,
                texts(params@) == param_texts(self.params.pairs()).take(i as int),
            decreases n - i,
        {
            let mut p: String = self.params.key(i).clone();
            p.append("=");
            p.append(self.params.value(i).as_str());
            let ghost before = params@;
            params.push(p);
            assert(texts(params@) =~= texts(before).push(p@));
            i += 1;
            assert(texts(params@) =~= param_texts(self.params.pairs()).take(i as int));
        }
        assert(texts(params@) =~= param_texts(self.params.pairs()));
        let mut r: String = self.provider.clone();
        r.append("/");
        r.append(self.model.as_str());
        r.append("@");
        r.append(self.quantization.as_str());
        r.append("[");
        r.append(join(&params, ",").as_str());
        r.append("]");
        r
    }

    /// The capability identifier that a manifest is matched against, by string
    /// equality. Invocation parameters are no part of it.
    pub fn capability_id(&self) -> (r: String)
        ensures
            r@ == binding_id(self.provider@, self.model@, self.quantization@),
    {
        binding_id_text(self.provider.as_str(), self.model.as_str(), self.quantization.as_str())
    }
}

impl Clone for ModelBinding {
    fn clone(&self) -> (r: Self)
        ensures
            r.same_as(self),
    {
        let r = ModelBinding {
            provider: self.provider.clone(),
            model: self.model.clone(),
            revision: self.revision.clone(),
            quantization: self.quantization.clone(),
            params: self.params.clone(),
        };
        assert(r.params.pairs() =~= self.params.pairs());
        r
    }
}

/// Bindings that agree on provider, model, quantization and parameters have the
/// same key and the same capability identifier, whatever their revisions.
pub proof fn law_same_binding_same_key(a: ModelBinding, b: ModelBinding)
    requires
        a.provider@ == b.provider@,
        a.model@ == b.model@,
        a.quantization@ == b.quantization@,
        param_texts(a.params.pairs()) == param_texts(b.params.pairs()),
    ensures
        a.key_text() == b.key_text(),
        binding_id(a.provider@, a.model@, a.quantization@) == binding_id(
            b.provider@,
            b.model@,
            b.quantization@,
        ),
{
}

// -------------------------------------------------------------------- a cell

/// The artifact a cell declares: its id, echoed on the verdict, its media type
/// and the tree-relative path it lands at.
#[derive(Clone, Debug, Default, PartialEq)]
pub struct CellOutput {
    pub artifact_id: String,
    pub media_type: String,
    pub path: Option<String>,
}

/// One call inside a unit's sealed cell graph, with its own shape, prompt and
/// selected context. It depends only on cells of the same unit.
#[derive(Clone, Debug, Default, PartialEq)]
pub struct Cell {
    pub cell_id: String,
    pub binding: ModelBinding,
    pub depends_on: Vec<String>,
    /// The prompt, inline.
    pub prompt: String,
    /// The shape document that the cell's output must conform to.
    pub schema: Json,
    /// The language of `schema`, for example `JSON Schema`.
    pub shape_language: String,
    /// Ids of fragments in the unit's context pool.
    pub context_refs: Vec<String>,
    pub output: Option<CellOutput>,
    /// An extra gate beyond conformance to the shape.
    pub gate: Option<Json>,
}

/// A context fragment with its provenance.
#[derive(Clone, Debug, Default, PartialEq)]
pub struct ContextFragment {
    pub content: String,
    pub provenance: Option<String>,
}

/// Whether a green verdict may be committed without a person's decision.
#[derive(Clone, Copy, Debug, PartialEq, Eq, Structural)]
pub enum AcceptanceClass {
    AutoCommitIfGreen,
    NeedsVerdict,
}

impl Default for AcceptanceClass {
    fn default() -> (r: Self)
        ensures
            r == AcceptanceClass::AutoCommitIfGreen,
    {
        AcceptanceClass::AutoCommitIfGreen
    }
}

/// How a run lands in a declared git repository.
#[derive(Clone, Copy, Debug, PartialEq, Eq, Structural)]
pub enum IntegrationMethod {
    PushBranch,
    PullRequest,
}

impl Default for IntegrationMethod {
    fn default() -> (r: Self)
        ensures
            r == IntegrationMethod::PushBranch,
    {
        IntegrationMethod::PushBranch
    }
}

impl IntegrationMethod {
    pub open spec fn id_text(self) -> Seq<char> {
        match self {
            IntegrationMethod::PushBranch => "integration:push-branch"@,
            IntegrationMethod::PullRequest => "integration:pull-request"@,
        }
    }

    /// The prefixed capability identifier.
    pub fn capability_id(&self) -> (r: &'static str)
        ensures
            r@ == self.id_text(),
    {
        match self {
            IntegrationMethod::PushBranch => "integration:push-branch",
            IntegrationMethod::PullRequest => "integration:pull-request",
        }
    }
}

/// The integration that a repository delivery declares.
#[derive(Clone, Debug, Default, PartialEq, Eq)]
pub struct Integration {
    pub method: IntegrationMethod,
    pub target_ref: String,
    pub branch_name: String,
}

/// The declared transport for produced work. `Inline` returns bodies by value;
/// `Repository` lands the run in a declared git repository, and only there.
#[derive(Clone, Debug, PartialEq, Eq)]
pub enum ArtifactDelivery {
    Inline,
    Repository { url: String, base_ref: String, integration: Integration },
}

impl Default for ArtifactDelivery {
    fn default() -> (r: Self)
        ensures
            r == ArtifactDelivery::Inline,
    {
        ArtifactDelivery::Inline
    }
}

// ------------------------------------------------------------ repository URLs

/// The host at the start of what follows a URL scheme: up to the first slash or
/// colon, and nothing where that is empty.
pub open spec fn leading_host(rest: Seq<char>) -> Option<Seq<char>> {
    let host = rest.take(first_stop(rest, '/', ':'));
    if host.len() == 0 {
        None
    } else {
        Some(host)
    }
}

/// The host of an scp-like address `user@host:path`.
pub open spec fn scp_host(url: Seq<char>) -> Option<Seq<char>> {
    match cut(url, ':') {
        Some(parts) => match cut(parts.0, '@') {
            Some(user_host) => Some(user_host.1),
            None => None,
        },
        None => None,
    }
}

/// The scheme of a repository URL and, for a remote one, the forge host.
pub open spec fn scheme_and_host(url: Seq<char>) -> (Seq<char>, Option<Seq<char>>) {
    if stripped(url, "file://"@) is Some {
        ("file"@, None)
    } else if stripped(url, "https://"@) is Some {
        ("https"@, leading_host(stripped(url, "https://"@)->0))
    } else if stripped(url, "http://"@) is Some {
        ("https"@, leading_host(stripped(url, "http://"@)->0))
    } else if stripped(url, "ssh://"@) is Some {
        ("ssh"@, leading_host(stripped(url, "ssh://"@)->0))
    } else if stripped(url, "git://"@) is Some {
        ("git"@, leading_host(stripped(url, "git://"@)->0))
    } else if scp_host(url) is Some {
        ("ssh"@, scp_host(url))
    } else {
        ("file"@, None)
    }
}

fn host_of(rest: &str) -> (r: Option<String>)
    ensures
        opt_text(r) == leading_host(rest@),
{
    let host: String = before_stop(rest, '/', ':');
    if same(host.as_str(), "") {
        assert(host@.len() == 0) by {
            reveal_strlit("");
        }
        None
    } else {
        assert(host@.len() > 0) by {
            reveal_strlit("");
            if host@.len() == 0 {
                assert(host@ =~= ""@);
            }
        }
        Some(host)
    }
}

/// Splits a repository URL into its scheme and, for remote schemes, the forge
/// host: `file:///…` gives (`file`, none), `https://host/…` gives (`https`,
/// host), `ssh://…` and `user@host:…` give (`ssh`, host).
pub fn url_scheme_and_host(url: &str) -> (r: (String, Option<String>))
    ensures
        r.0@ == scheme_and_host(url@).0,
        opt_text(r.1) == scheme_and_host(url@).1,
{
    if strip_prefix(url, "file://").is_some() {
        return ("file".to_owned(), None);
    }
    if let Some(rest) = strip_prefix(url, "https://") {
        return ("https".to_owned(), host_of(rest.as_str()));
    }
    if let Some(rest) = strip_prefix(url, "http://") {
        return ("https".to_owned(), host_of(rest.as_str()));
    }
    if let Some(rest) = strip_prefix(url, "ssh://") {
        return ("ssh".to_owned(), host_of(rest.as_str()));
    }
    if let Some(rest) = strip_prefix(url, "git://") {
        return ("git".to_owned(), host_of(rest.as_str()));
    }
    if let Some(parts) = split_once(url, ':') {
        if let Some(user_host) = split_once(parts.0.as_str(), '@') {
            return ("ssh".to_owned(), Some(user_host.1));
        }
    }
    ("file".to_owned(), None)
}

// -------------------------------------------------------------- the work unit

/// The declared execution boundary of a unit.
#[derive(Clone, Debug, Default, PartialEq)]
pub struct Environment {
    pub network: Vec<String>,
    pub workspace: String,
}

/// Whether a tool may fire while a cell runs.
#[derive(Clone, Copy, Debug, PartialEq, Eq, Structural)]
pub enum ToolClass {
    /// May fire during execution: a leaf effect.
    Effect,
    /// May not fire during a run: all knowledge was frozen at dispatch.
    Knowledge,
}

#[derive(Clone, Debug, PartialEq)]
pub struct ToolGrant {
    pub name: String,
    pub class: ToolClass,
}

/// The frozen unit of work that the executor consumes, by value.
#[derive(Clone, Debug, Default, PartialEq)]
pub struct WorkUnit {
    pub unit_ref: String,
    pub parent_deliverable: String,
    pub bundle_hash: String,
    pub spmc_bundle: Json,
    /// The one pinned binding of the whole unit.
    pub model_binding: ModelBinding,
    /// A routing handle over the binding: which residency to run at.
    pub tier: String,
    pub acceptance_class: AcceptanceClass,
    pub ladder_position: u32,
    pub artifact_delivery: ArtifactDelivery,
    /// The fragment pool; every context reference of a cell resolves here.
    pub context_pool: StrMap<ContextFragment>,
    pub cell_graph: Vec<Cell>,
    pub environment: Environment,
    pub credential_grant: Option<String>,
    pub tool_grants: Vec<ToolGrant>,
}

/// Whether a cell of the list has this id.
pub open spec fn names_cell(cells: Seq<Cell>, id: Seq<char>) -> bool {
    exists|i: int| 0 <= i < cells.len() && (#[trigger] cells[i]).cell_id@ == id
}

/// What a gate document declares as its kind.
pub open spec fn gate_kind(gate: Option<JsonView>) -> Option<Seq<char>> {
    match gate {
        Some(g) => match g.member("kind"@) {
            Some(k) => k.text(),
            None => None,
        },
        None => None,
    }
}

/// Whether the delivery requires the capability `id`.
pub open spec fn delivery_requires(delivery: ArtifactDelivery, id: Seq<char>) -> bool {
    match delivery {
        ArtifactDelivery::Inline => id == "delivery:inline"@,
        ArtifactDelivery::Repository { url, base_ref, integration } => {
            ||| id == "delivery:repository"@
            ||| id == "url-scheme:"@ + scheme_and_host(url@).0
            ||| id == integration.method.id_text()
            ||| scheme_and_host(url@).1 is Some && id == "forge:"@ + scheme_and_host(url@).1->0
        },
    }
}

/// Whether the cell requires the capability `id`: its shape language, unless
/// blank, and the kind of its gate.
pub open spec fn cell_requires(c: Cell, id: Seq<char>) -> bool {
    ||| !blank(c.shape_language@) && id == "shape-language:"@ + c.shape_language@
    ||| gate_kind(opt_json(c.gate)) is Some && id == "gate:"@ + gate_kind(opt_json(c.gate))->0
}

/// The cell lacks its prompt or its shape.
pub open spec fn unexecutable(c: Cell) -> bool {
    blank(c.prompt@) || c.schema@ == JsonView::Null
}

impl WorkUnit {
    /// Every cell wants the binding of the unit.
    pub open spec fn homogeneous(&self) -> bool {
        forall|i: int|
            0 <= i < self.cell_graph@.len() ==> (#[trigger] self.cell_graph@[i]).binding.key_text()
                == self.model_binding.key_text()
    }

    /// A dependency of the cell names no cell of this unit.
    pub open spec fn edge_leaves(&self, c: Cell) -> bool {
        exists|j: int|
            0 <= j < c.depends_on@.len() && !names_cell(
                self.cell_graph@,
                (#[trigger] c.depends_on@[j])@,
            )
    }

    /// A context reference of the cell names nothing in the pool of this unit.
    pub open spec fn ref_dangles(&self, c: Cell) -> bool {
        exists|j: int|
            0 <= j < c.context_refs@.len() && !self.context_pool@.contains_key(
                (#[trigger] c.context_refs@[j])@,
            )
    }

    /// The rule that keeps the unit from admission, if one does: the first of the
    /// four, in their fixed order, that any cell breaks.
    pub open spec fn fault(&self) -> Option<Seq<char>> {
        let n = self.cell_graph@.len();
        if !self.homogeneous() {
            Some("inv-binding-homogeneity"@)
        } else if exists|i: int| 0 <= i < n && self.edge_leaves(#[trigger] self.cell_graph@[i]) {
            Some("inv-cross-unit-edge"@)
        } else if exists|i: int| 0 <= i < n && self.ref_dangles(#[trigger] self.cell_graph@[i]) {
            Some("inv-unresolved-context-ref"@)
        } else if exists|i: int| 0 <= i < n && unexecutable(#[trigger] self.cell_graph@[i]) {
            Some("inv-cell-unexecutable"@)
        } else {
            None
        }
    }

    /// The capability identifiers that running this unit takes.
    pub open spec fn required(&self) -> Set<Seq<char>> {
        Set::new(
            |id: Seq<char>|
                {
                    ||| id == binding_id(
                        self.model_binding.provider@,
                        self.model_binding.model@,
                        self.model_binding.quantization@,
                    )
                    ||| delivery_requires(self.artifact_delivery, id)
                    ||| exists|i: int|
                        0 <= i < self.cell_graph@.len() && cell_requires(
                            #[trigger] self.cell_graph@[i],
                            id,
                        )
                },
        )
    }

    /// A unit is well-formed only if every cell requires the binding of the unit.
    pub fn is_binding_homogeneous(&self) -> (r: bool)
        ensures
            r == self.homogeneous(),
    {
        let unit: String = self.model_binding.key();
        let mut i: usize = 0;
        while i < self.cell_graph.len()
            invariant
                i <= self.cell_graph@.len(),
                unit@ == self.model_binding.key_text(),
                forall|j: int|
                    0 <= j < i ==> (#[trigger] self.cell_graph@[j]).binding.key_text() == unit@,
            decreases self.cell_graph@.len() - i,
        {
            if !same(self.cell_graph[i].binding.key().as_str(), unit.as_str()) {
                return false;
            }
            i += 1;
        }
        true
    }

    fn has_cell(&self, id: &str) -> (r: bool)
        ensures
            r == names_cell(self.cell_graph@, id@),
    {
        let mut i: usize = 0;
        while i < self.cell_graph.len()
            invariant
                i <= self.cell_graph@.len(),
                forall|j: int| 0 <= j < i ==> (#[trigger] self.cell_graph@[j]).cell_id@ != id@,
            decreases self.cell_graph@.len() - i,
        {
            if same(self.cell_graph[i].cell_id.as_str(), id) {
                return true;
            }
            i += 1;
        }
        false
    }

    fn has_leaving_edge(&self, c: &Cell) -> (r: bool)
        ensures
            r == self.edge_leaves(*c),
    {
        let mut j: usize = 0;
        while j < c.depends_on.len()
            invariant
                j <= c.depends_on@.len(),
                forall|k: int|
                    0 <= k < j ==> names_cell(self.cell_graph@, (#[trigger] c.depends_on@[k])@),
            decreases c.depends_on@.len() - j,
        {
            if !self.has_cell(c.depends_on[j].as_str()) {
                return true;
            }
            j += 1;
        }
        false
    }

    fn has_dangling_ref(&self, c: &Cell) -> (r: bool)
        ensures
            r == self.ref_dangles(*c),
    {
        let mut j: usize = 0;
        while j < c.context_refs.len()
            invariant
                j <= c.context_refs@.len(),
                forall|k: int|
                    0 <= k < j ==> self.context_pool@.contains_key(
                        (#[trigger] c.context_refs@[k])@,
                    ),
            decreases c.context_refs@.len() - j,
        {
            if !self.context_pool.contains_key(c.context_refs[j].as_str()) {
                return true;
            }
            j += 1;
        }
        false
    }

    /// Validates an incoming unit before admission. The error is the id of the
    /// first rule that a cell of the unit breaks, in this order:
    ///
    /// 1. `inv-binding-homogeneity`: a cell wants another binding than the unit.
    /// 2. `inv-cross-unit-edge`: a dependency names a cell outside this unit.
    /// 3. `inv-unresolved-context-ref`: a context reference is not in the pool.
    /// 4. `inv-cell-unexecutable`: a cell lacks its prompt or its shape.
    pub fn validate(&self) -> (r: Result<(), &'static str>)
        ensures
            match r {
                Ok(_) => self.fault() is None,
                Err(e) => self.fault() == Some(e@),
            },
    {
        if !self.is_binding_homogeneous() {
            return Err("inv-binding-homogeneity");
        }
        let n: usize = self.cell_graph.len();
        let mut edges: usize = 0;
        while edges < n
            invariant
                edges <= n == self.cell_graph@.len(),
                self.homogeneous(),
                forall|i: int|
                    0 <= i < edges ==> !self.edge_leaves(#[trigger] self.cell_graph@[i]),
            decreases n - edges,
        {
            if self.has_leaving_edge(&self.cell_graph[edges]) {
                return Err("inv-cross-unit-edge");
            }
            edges += 1;
        }
        let mut refs: usize = 0;
        while refs < n
            invariant
                refs <= n == self.cell_graph@.len(),
                self.homogeneous(),
                forall|i: int| 0 <= i < n ==> !self.edge_leaves(#[trigger] self.cell_graph@[i]),
                forall|i: int|
                    0 <= i < refs ==> !self.ref_dangles(#[trigger] self.cell_graph@[i]),
            decreases n - refs,
        {
            if self.has_dangling_ref(&self.cell_graph[refs]) {
                return Err("inv-unresolved-context-ref");
            }
            refs += 1;
        }
        let mut cells: usize = 0;
        while cells < n
            invariant
                cells <= n == self.cell_graph@.len(),
                self.homogeneous(),
                forall|i: int| 0 <= i < n ==> !self.edge_leaves(#[trigger] self.cell_graph@[i]),
                forall|i: int| 0 <= i < n ==> !self.ref_dangles(#[trigger] self.cell_graph@[i]),
                forall|i: int| 0 <= i < cells ==> !unexecutable(#[trigger] self.cell_graph@[i]),
            decreases n - cells,
        {
            let c: &Cell = &self.cell_graph[cells];
            if is_blank(c.prompt.as_str()) || c.schema.is_null() {
                assert(unexecutable(self.cell_graph@[cells as int]));
                return Err("inv-cell-unexecutable");
            }
            cells += 1;
        }
        Ok(())
    }

    /// The capability identifiers that running this unit takes, derived from the
    /// unit itself: its binding, its delivery, and every distinct shape language
    /// and gate kind of its cells.
    pub fn requirements(&self) -> (r: StrSet)
        ensures
            r@ == self.required(),
    {
        let mut req: StrSet = StrSet::new();
        req.insert(self.model_binding.capability_id());
        let ghost binding = binding_id(
            self.model_binding.provider@,
            self.model_binding.model@,
            self.model_binding.quantization@,
        );
        match &self.artifact_delivery {
            ArtifactDelivery::Inline => {
                req.insert("delivery:inline".to_owned());
            },
            ArtifactDelivery::Repository { url, base_ref, integration } => {
                req.insert("delivery:repository".to_owned());
                let (scheme, host) = url_scheme_and_host(url.as_str());
                req.insert(prefixed("url-scheme:", scheme.as_str()));
                req.insert(integration.method.capability_id().to_owned());
                if let Some(h) = host {
                    req.insert(prefixed("forge:", h.as_str()));
                }
            },
        }
        assert(forall|id: Seq<char>|
            #![trigger req@.contains(id)]
            req@.contains(id) <==> id == binding || delivery_requires(self.artifact_delivery, id));
        let mut i: usize = 0;
        while i < self.cell_graph.len()
            invariant
                i <= self.cell_graph@.len(),
                forall|id: Seq<char>|
                    #![trigger req@.contains(id)]
                    req@.contains(id) <==> id == binding || delivery_requires(
                        self.artifact_delivery,
                        id,
                    ) || exists|k: int|
                        0 <= k < i && cell_requires(#[trigger] self.cell_graph@[k], id),
            decreases self.cell_graph@.len() - i,
        {
            let c: &Cell = &self.cell_graph[i];
            let ghost before = req@;
            if !is_blank(c.shape_language.as_str()) {
                req.insert(prefixed("shape-language:", c.shape_language.as_str()));
            }
            if let Some(gate) = &c.gate {
                if let Some(kind) = gate.get("kind") {
                    if let Some(k) = kind.as_str() {
                        req.insert(prefixed("gate:", k));
                    }
                }
            }
            assert(forall|id: Seq<char>|
                #![trigger req@.contains(id)]
                req@.contains(id) <==> before.contains(id) || cell_requires(*c, id));
            assert(self.cell_graph@[i as int] == *c);
            i += 1;
        }
        assert(req@ =~= self.required());
        req
    }
}

/// What keeps a unit from admission lies in its cells, its binding and its pool:
/// units that agree on these break the same rule.
pub proof fn lemma_same_fault(a: WorkUnit, b: WorkUnit)
    requires
        a.cell_graph == b.cell_graph,
        a.model_binding == b.model_binding,
        a.context_pool == b.context_pool,
    ensures
        a.fault() == b.fault(),
{
    assert forall|c: Cell| #[trigger] a.edge_leaves(c) == b.edge_leaves(c) by {}
    assert forall|c: Cell| #[trigger] a.ref_dangles(c) == b.ref_dangles(c) by {}
}

fn prefixed(prefix: &str, s: &str) -> (r: String)
    ensures
        r@ == prefix@ + s@,
{
    let mut r: String = prefix.to_owned();
    r.append(s);
    r
}

// --------------------------------------------------------------- the verdict

/// What a run says of a unit. `NotAdmitted` means that the unit never ran: the
/// box lacked a required capability.
#[derive(Clone, Copy, Debug, PartialEq, Eq, Structural)]
pub enum Verdict {
    Accepted,
    Rejected,
    Escalate,
    NotAdmitted,
}

/// What follows from a verdict.
#[derive(Clone, Copy, Debug, PartialEq, Eq, Structural)]
pub enum Consequence {
    Advance,
    Halt,
    Retry,
    Escalate,
}

/// What a walk of the cell graph says of one cell.
#[derive(Clone, Copy, Debug, PartialEq, Eq, Structural)]
pub enum CellVerdict {
    Accepted,
    Rejected,
    /// Never gated: a predecessor failed.
    Skipped,
}

/// The body of a produced artifact, returned by value under inline delivery.
#[derive(Debug, PartialEq)]
pub enum ArtifactBody {
    Inline { content: String },
}

/// A produced artifact, identified by its content hash.
#[derive(Debug, PartialEq)]
pub struct Artifact {
    /// The artifact id that the cell declared.
    pub artifact_id: String,
    pub content_hash: String,
    pub delivery: ArtifactBody,
}

impl Clone for ArtifactBody {
    fn clone(&self) -> (r: Self)
        ensures
            r == *self,
    {
        match self {
            ArtifactBody::Inline { content } => ArtifactBody::Inline { content: content.clone() },
        }
    }
}

impl Clone for Artifact {
    fn clone(&self) -> (r: Self)
        ensures
            r == *self,
    {
        Artifact {
            artifact_id: self.artifact_id.clone(),
            content_hash: self.content_hash.clone(),
            delivery: self.delivery.clone(),
        }
    }
}

/// Where a repository delivery landed: refs, never payloads.
#[derive(Clone, Debug, PartialEq)]
pub struct DeliveryResult {
    pub branch: String,
    pub commit: String,
    pub pr_url: Option<String>,
}

/// Evidence of one cell for the verdict on its unit.
#[derive(Clone, Debug, PartialEq)]
pub struct CellResult {
    pub cell_id: String,
    pub verdict: CellVerdict,
    /// Whether the verdict is `Accepted`.
    pub passed: bool,
    pub artifact: Option<Artifact>,
    pub evidence: Option<Json>,
}

impl CellResult {
    /// The verdict and the flag agree.
    pub open spec fn consistent(&self) -> bool {
        self.passed == (self.verdict == CellVerdict::Accepted)
    }

    /// A result with this verdict and nothing produced.
    pub open spec fn bare(&self, cell_id: Seq<char>, verdict: CellVerdict) -> bool {
        &&& self.cell_id@ == cell_id
        &&& self.verdict == verdict
        &&& self.passed == (verdict == CellVerdict::Accepted)
        &&& self.artifact is None
        &&& self.evidence is None
    }

    /// A gated result: accepted when it passed, rejected otherwise.
    pub fn gated(cell_id: &str, passed: bool) -> (r: Self)
        ensures
            r.bare(
                cell_id@,
                if passed {
                    CellVerdict::Accepted
                } else {
                    CellVerdict::Rejected
                },
            ),
    {
        CellResult {
            cell_id: cell_id.to_owned(),
            verdict: if passed {
                CellVerdict::Accepted
            } else {
                CellVerdict::Rejected
            },
            passed,
            artifact: None,
            evidence: None,
        }
    }

    /// A skipped result: a predecessor failed, so the cell was never gated.
    pub fn skipped(cell_id: &str) -> (r: Self)
        ensures
            r.bare(cell_id@, CellVerdict::Skipped),
    {
        CellResult {
            cell_id: cell_id.to_owned(),
            verdict: CellVerdict::Skipped,
            passed: false,
            artifact: None,
            evidence: None,
        }
    }
}

/// The self-describing event that a drained unit emits. `tier_ran` and
/// `cell_results` are there when the unit ran; `missing_capabilities` is there
/// when it was not admitted.
#[derive(Clone, Debug, PartialEq)]
pub struct VerdictEvent {
    pub event_id: String,
    pub emitted_at: String,
    pub unit_ref: String,
    pub parent_deliverable: String,
    pub bundle_hash: String,
    pub verdict: Verdict,
    /// The capability identifiers that the box lacks for this unit.
    pub missing_capabilities: Option<Vec<String>>,
    pub tier_ran: Option<String>,
    pub cell_results: Vec<CellResult>,
    pub delivery_result: Option<DeliveryResult>,
    pub next_consequence: Consequence,
}

// -------------------------------------------------------------- the manifest

/// What an executor publishes about itself: its answer to what can run here.
#[derive(Debug, PartialEq)]
pub struct CapabilityManifest {
    pub executor_id: String,
    pub emitted_at: String,
    /// The facts that admission is matched against.
    pub capabilities: Capabilities,
    /// Routing hints, never admission facts.
    pub operational: Option<Operational>,
}

/// The capability facts of a box.
#[derive(Debug, Default, PartialEq)]
pub struct Capabilities {
    pub bindings: Vec<ManifestBinding>,
    pub delivery: DeliveryCapability,
    pub shape_languages: Vec<String>,
    pub gate_kinds: Vec<String>,
}

/// A servable binding as a manifest declares it.
#[derive(Debug, Default, PartialEq, Eq)]
pub struct ManifestBinding {
    pub provider: String,
    pub model_id: String,
    pub revision: Option<String>,
    pub quantization: String,
}

impl ManifestBinding {
    /// `binding:<provider>/<model-id>@<quantization>`.
    pub fn capability_id(&self) -> (r: String)
        ensures
            r@ == binding_id(self.provider@, self.model_id@, self.quantization@),
    {
        binding_id_text(self.provider.as_str(), self.model_id.as_str(), self.quantization.as_str())
    }
}

/// The delivery modes of a box and, for `repository`, what it can reach.
#[derive(Debug, Default, PartialEq)]
pub struct DeliveryCapability {
    pub modes: Vec<String>,
    pub url_schemes: Vec<String>,
    pub integration_methods: Vec<String>,
    pub forges: Vec<String>,
}

/// Advisory routing hints.
#[derive(Debug, Default, PartialEq)]
pub struct Operational {
    pub mode: Option<String>,
    pub queue_depth: Option<i64>,
    pub capacity: Option<i64>,
}

impl Clone for ManifestBinding {
    fn clone(&self) -> (r: Self)
        ensures
            r == *self,
    {
        ManifestBinding {
            provider: self.provider.clone(),
            model_id: self.model_id.clone(),
            revision: self.revision.clone(),
            quantization: self.quantization.clone(),
        }
    }
}

impl Clone for DeliveryCapability {
    fn clone(&self) -> (r: Self)
        ensures
            r.same_as(self),
    {
        let r = DeliveryCapability {
            modes: self.modes.clone(),
            url_schemes: self.url_schemes.clone(),
            integration_methods: self.integration_methods.clone(),
            forges: self.forges.clone(),
        };
        assert(r.modes@ =~= self.modes@);
        assert(r.url_schemes@ =~= self.url_schemes@);
        assert(r.integration_methods@ =~= self.integration_methods@);
        assert(r.forges@ =~= self.forges@);
        r
    }
}

impl DeliveryCapability {
    /// Whether the other declares the same, list by list.
    pub open spec fn same_as(&self, other: &DeliveryCapability) -> bool {
        &&& self.modes@ == other.modes@
        &&& self.url_schemes@ == other.url_schemes@
        &&& self.integration_methods@ == other.integration_methods@
        &&& self.forges@ == other.forges@
    }
}

impl Clone for Capabilities {
    fn clone(&self) -> (r: Self)
        ensures
            r.same_as(self),
    {
        let r = Capabilities {
            bindings: self.bindings.clone(),
            delivery: self.delivery.clone(),
            shape_languages: self.shape_languages.clone(),
            gate_kinds: self.gate_kinds.clone(),
        };
        assert(r.bindings@ =~= self.bindings@);
        assert(r.shape_languages@ =~= self.shape_languages@);
        assert(r.gate_kinds@ =~= self.gate_kinds@);
        r
    }
}

impl Clone for Operational {
    fn clone(&self) -> (r: Self)
        ensures
            r == *self,
    {
        Operational {
            mode: self.mode.clone(),
            queue_depth: self.queue_depth,
            capacity: self.capacity,
        }
    }
}

impl Clone for CapabilityManifest {
    fn clone(&self) -> (r: Self)
        ensures
            r.executor_id == self.executor_id,
            r.emitted_at == self.emitted_at,
            r.capabilities.same_as(&self.capabilities),
            r.operational == self.operational,
    {
        CapabilityManifest {
            executor_id: self.executor_id.clone(),
            emitted_at: self.emitted_at.clone(),
            capabilities: self.capabilities.clone(),
            operational: self.operational.clone(),
        }
    }
}

/// Each listed name behind the prefix.
pub open spec fn prefixed_ids(prefix: Seq<char>, names: Seq<String>) -> Set<Seq<char>> {
    Set::new(
        |id: Seq<char>|
            exists|i: int| 0 <= i < names.len() && id == prefix + (#[trigger] names[i])@,
    )
}

/// The capability identifiers of the listed bindings.
pub open spec fn binding_ids(bindings: Seq<ManifestBinding>) -> Set<Seq<char>> {
    Set::new(
        |id: Seq<char>|
            exists|i: int|
                0 <= i < bindings.len() && id == binding_id(
                    (#[trigger] bindings[i]).provider@,
                    bindings[i].model_id@,
                    bindings[i].quantization@,
                ),
    )
}

impl Capabilities {
    /// Whether the other declares the same, list by list.
    pub open spec fn same_as(&self, other: &Capabilities) -> bool {
        &&& self.bindings@ == other.bindings@
        &&& self.delivery.same_as(&other.delivery)
        &&& self.shape_languages@ == other.shape_languages@
        &&& self.gate_kinds@ == other.gate_kinds@
    }

    /// The capability identifiers that these facts cover.
    pub open spec fn ids(&self) -> Set<Seq<char>> {
        binding_ids(self.bindings@).union(
            prefixed_ids("delivery:"@, self.delivery.modes@),
        ).union(prefixed_ids("url-scheme:"@, self.delivery.url_schemes@)).union(
            prefixed_ids("integration:"@, self.delivery.integration_methods@),
        ).union(prefixed_ids("forge:"@, self.delivery.forges@)).union(
            prefixed_ids("shape-language:"@, self.shape_languages@),
        ).union(prefixed_ids("gate:"@, self.gate_kinds@))
    }
}

fn insert_prefixed(ids: &mut StrSet, prefix: &str, names: &Vec<String>)
    ensures
        final(ids)@ == old(ids)@.union(prefixed_ids(prefix@, names@)),
{
    let ghost before = ids@;
    let mut i: usize = 0;
    while i < names.len()
        invariant
            i <= names@.len(),
            ids@ == before.union(prefixed_ids(prefix@, names@.take(i as int))),
        decreases names@.len() - i,
    {
        ids.insert(prefixed(prefix, names[i].as_str()));
        proof {
            let done = names@.take(i as int);
            let more = names@.take(i + 1);
            let added = prefix@ + names@[i as int]@;
            assert forall|id: Seq<char>|
                #![trigger prefixed_ids(prefix@, more).contains(id)]
                prefixed_ids(prefix@, more).contains(id) <==> (prefixed_ids(
                    prefix@,
                    done,
                ).contains(id) || id == added) by {
                if prefixed_ids(prefix@, done).contains(id) {
                    let k = choose|k: int|
                        0 <= k < done.len() && id == prefix@ + (#[trigger] done[k])@;
                    assert(more[k] == done[k]);
                }
                assert(more[i as int] == names@[i as int]);
                if prefixed_ids(prefix@, more).contains(id) && id != added {
                    let k = choose|k: int|
                        0 <= k < more.len() && id == prefix@ + (#[trigger] more[k])@;
                    assert(more[k] == done[k]);
                }
            }
            assert(ids@ =~= before.union(prefixed_ids(prefix@, more)));
        }
        i += 1;
    }
    assert(names@.take(i as int) =~= names@);
}

impl CapabilityManifest {
    /// What running the unit takes and this box lacks.
    pub open spec fn distance(&self, unit: WorkUnit) -> Set<Seq<char>> {
        unit.required().difference(self.capabilities.ids())
    }

    /// The capability identifiers that this manifest covers, derived from its
    /// capabilities alone.
    pub fn capability_ids(&self) -> (r: StrSet)
        ensures
            r@ == self.capabilities.ids(),
    {
        let mut ids: StrSet = StrSet::new();
        let mut i: usize = 0;
        while i < self.capabilities.bindings.len()
            invariant
                i <= self.capabilities.bindings@.len(),
                forall|id: Seq<char>|
                    #![trigger ids@.contains(id)]
                    ids@.contains(id) <==> exists|k: int|
                        0 <= k < i && id == binding_id(
                            (#[trigger] self.capabilities.bindings@[k]).provider@,
                            self.capabilities.bindings@[k].model_id@,
                            self.capabilities.bindings@[k].quantization@,
                        ),
            decreases self.capabilities.bindings@.len() - i,
        {
            let b: &ManifestBinding = &self.capabilities.bindings[i];
            ids.insert(b.capability_id());
            assert(self.capabilities.bindings@[i as int] == *b);
            i += 1;
        }
        assert(ids@ =~= binding_ids(self.capabilities.bindings@));
        insert_prefixed(&mut ids, "delivery:", &self.capabilities.delivery.modes);
        insert_prefixed(&mut ids, "url-scheme:", &self.capabilities.delivery.url_schemes);
        insert_prefixed(&mut ids, "integration:", &self.capabilities.delivery.integration_methods);
        insert_prefixed(&mut ids, "forge:", &self.capabilities.delivery.forges);
        insert_prefixed(&mut ids, "shape-language:", &self.capabilities.shape_languages);
        insert_prefixed(&mut ids, "gate:", &self.capabilities.gate_kinds);
        ids
    }

    /// The distance for a unit, in increasing order. It is empty exactly when the
    /// box can run the unit.
    pub fn missing_for(&self, unit: &WorkUnit) -> (r: Vec<String>)
        ensures
            increasing(texts(r@)),
            texts(r@).to_set() == self.distance(*unit),
    {
        let have: StrSet = self.capability_ids();
        let need: StrSet = unit.requirements();
        let n: usize = need.len();
        let mut missing: Vec<String> = Vec::new();
        let mut i: usize = 0;
        while i < n
            invariant
                n == need.listed().len(),
                i <= n,
                increasing(need.listed()),
                have@ == self.capabilities.ids(),
                increasing(texts(missing@)),
                forall|k: int| 0 <= k < missing@.len() && i < n ==> crate::text::lex_lt(
                    (#[trigger] missing@[k])@,
                    need.listed()[i as int],
                ),
                forall|id: Seq<char>|
                    #![trigger texts(missing@).contains(id)]
                    texts(missing@).contains(id) <==> need.listed().take(i as int).contains(id)
                        && !have@.contains(id),
            decreases n - i,
        {
            let s: &String = need.item(i);
            let ghost before = missing@;
            let ghost listed = need.listed();
            proof {
                lemma_take_next(listed, i as int);
            }
            if !have.contains(s.as_str()) {
                missing.push(s.clone());
                proof {
                    assert(texts(missing@) =~= texts(before).push(s@));
                    lemma_push_contains(texts(before), s@);
                    assert forall|a: int, b: int|
                        0 <= a < b < texts(missing@).len() implies crate::text::lex_lt(
                        #[trigger] texts(missing@)[a],
                        #[trigger] texts(missing@)[b],
                    ) by {
                        if b < before.len() {
                            assert(texts(before)[a] == texts(missing@)[a]);
                            assert(texts(before)[b] == texts(missing@)[b]);
                        } else {
                            assert(missing@[a] == before[a]);
                        }
                    }
                }
            }
            proof {
                if i + 1 < n {
                    assert(crate::text::lex_lt(listed[i as int], listed[i + 1]));
                    assert forall|k: int| 0 <= k < missing@.len() implies crate::text::lex_lt(
                        (#[trigger] missing@[k])@,
                        listed[i + 1],
                    ) by {
                        if k < before.len() {
                            assert(missing@[k] == before[k]);
                            crate::text::lemma_lex_transitive(
                                before[k]@,
                                listed[i as int],
                                listed[i + 1],
                            );
                        }
                    }
                }
            }
            i += 1;
        }
        proof {
            assert(need.listed().take(i as int) =~= need.listed());
            assert forall|id: Seq<char>|
                #![trigger texts(missing@).to_set().contains(id)]
                texts(missing@).to_set().contains(id) <==> self.distance(*unit).contains(id) by {
                assert(texts(missing@).to_set().contains(id) <==> texts(missing@).contains(id));
                assert(need@.contains(id) <==> need.listed().contains(id));
            }
            assert(texts(missing@).to_set() =~= self.distance(*unit));
        }
        missing
    }

    /// Whether the manifest covers every requirement of the unit.
    pub fn covers(&self, unit: &WorkUnit) -> (r: bool)
        ensures
            r == unit.required().subset_of(self.capabilities.ids()),
            r == (self.distance(*unit) == Set::<Seq<char>>::empty()),
    {
        let missing: Vec<String> = self.missing_for(unit);
        proof {
            let d = self.distance(*unit);
            assert(d == texts(missing@).to_set());
            if missing@.len() == 0 {
                assert(d =~= Set::<Seq<char>>::empty());
                assert forall|id: Seq<char>| unit.required().contains(
                    id,
                ) implies self.capabilities.ids().contains(id) by {
                    assert(!d.contains(id));
                }
            } else {
                let id = texts(missing@)[0];
                assert(texts(missing@).contains(id));
                assert(d.contains(id));
            }
        }
        missing.len() == 0
    }
}

proof fn lemma_take_next(s: Seq<Seq<char>>, i: int)
    requires
        0 <= i < s.len(),
    ensures
        forall|x: Seq<char>|
            #![trigger s.take(i + 1).contains(x)]
            s.take(i + 1).contains(x) <==> s.take(i).contains(x) || x == s[i],
{
    assert(s.take(i + 1) =~= s.take(i).push(s[i]));
    lemma_push_contains(s.take(i), s[i]);
}

proof fn lemma_push_contains(s: Seq<Seq<char>>, a: Seq<char>)
    ensures
        forall|x: Seq<char>|
            #![trigger s.push(a).contains(x)]
            s.push(a).contains(x) <==> s.contains(x) || x == a,
{
    let t = s.push(a);
    assert forall|x: Seq<char>|
        #![trigger t.contains(x)]
        t.contains(x) <==> s.contains(x) || x == a by {
        if s.contains(x) {
            let k = choose|k: int| 0 <= k < s.len() && s[k] == x;
            assert(t[k] == x);
        }
        assert(t[s.len() as int] == a);
    }
}

// ---------------------------------------------------------------------- laws

/// A unit is admissible exactly when every cell wants the binding of the unit,
/// names only cells of the unit and fragments of its pool, and has a prompt and a
/// shape.
pub proof fn law_an_admissible_unit_breaks_no_rule(u: WorkUnit)
    ensures
        u.fault() is None <==> u.homogeneous() && forall|i: int|
            0 <= i < u.cell_graph@.len() ==> sound_cell(u, #[trigger] u.cell_graph@[i]),
{
    assert forall|i: int| 0 <= i < u.cell_graph@.len() implies (sound_cell(
        u,
        #[trigger] u.cell_graph@[i],
    ) <==> !u.edge_leaves(u.cell_graph@[i]) && !u.ref_dangles(u.cell_graph@[i]) && !unexecutable(
        u.cell_graph@[i],
    )) by {}
    if u.fault() is None {
        assert forall|i: int| 0 <= i < u.cell_graph@.len() implies sound_cell(
            u,
            #[trigger] u.cell_graph@[i],
        ) by {}
    }
}

/// A cell that can be run in its unit.
pub open spec fn sound_cell(u: WorkUnit, c: Cell) -> bool {
    &&& forall|j: int|
        0 <= j < c.depends_on@.len() ==> names_cell(u.cell_graph@, (#[trigger] c.depends_on@[j])@)
    &&& forall|j: int|
        0 <= j < c.context_refs@.len() ==> u.context_pool@.contains_key(
            (#[trigger] c.context_refs@[j])@,
        )
    &&& !blank(c.prompt@)
    &&& c.schema@ != JsonView::Null
}

/// A box that can do more lacks no more: growing the capabilities only shrinks
/// the distance to any unit.
pub proof fn law_more_capabilities_never_lengthen_the_distance(
    less: CapabilityManifest,
    more: CapabilityManifest,
    unit: WorkUnit,
)
    requires
        less.capabilities.ids().subset_of(more.capabilities.ids()),
    ensures
        more.distance(unit).subset_of(less.distance(unit)),
        less.distance(unit) == Set::<Seq<char>>::empty() ==> more.distance(unit) == Set::<
            Seq<char>,
        >::empty(),
{
    if less.distance(unit) == Set::<Seq<char>>::empty() {
        assert(more.distance(unit) =~= Set::<Seq<char>>::empty());
    }
}

/// Routing hints, the executor's name and the time of publication decide nothing:
/// two manifests with the same capabilities are at the same distance to every unit.
pub proof fn law_only_capabilities_decide(
    a: CapabilityManifest,
    b: CapabilityManifest,
    unit: WorkUnit,
)
    requires
        a.capabilities.same_as(&b.capabilities),
    ensures
        a.distance(unit) == b.distance(unit),
{
}

/// A unit always needs at least its binding and a delivery mode, so a manifest
/// that declares nothing covers no unit.
pub proof fn law_an_empty_manifest_covers_nothing(m: CapabilityManifest, unit: WorkUnit)
    requires
        m.capabilities.ids() == Set::<Seq<char>>::empty(),
    ensures
        m.distance(unit) != Set::<Seq<char>>::empty(),
{
    let id = binding_id(
        unit.model_binding.provider@,
        unit.model_binding.model@,
        unit.model_binding.quantization@,
    );
    assert(m.distance(unit).contains(id));
}

// ------------------------------------------------------------ laws of the rules

/// The rule that is named for a unit is the first, in their fixed order, that any
/// cell of the unit breaks, wherever the cell stands.
pub proof fn law_the_first_broken_rule_is_named(u: WorkUnit)
    ensures
        ({
            let cells = u.cell_graph@;
            let mixed = exists|i: int|
                0 <= i < cells.len() && (#[trigger] cells[i]).binding.key_text()
                    != u.model_binding.key_text();
            let leaves = exists|i: int, j: int|
                0 <= i < cells.len() && 0 <= j < cells[i].depends_on@.len() && forall|k: int|
                    0 <= k < cells.len() ==> (#[trigger] cells[k]).cell_id@ != (
                    #[trigger] cells[i].depends_on@[j])@;
            let dangles = exists|i: int, j: int|
                0 <= i < cells.len() && 0 <= j < cells[i].context_refs@.len()
                    && !u.context_pool@.contains_key((#[trigger] cells[i].context_refs@[j])@);
            let lacks = exists|i: int|
                0 <= i < cells.len() && ((#[trigger] cells[i]).schema@ == JsonView::Null || forall|
                    k: int,
                |
                    0 <= k < cells[i].prompt@.len() ==> white_space(
                        #[trigger] cells[i].prompt@[k],
                    ));
            u.fault() == if mixed {
                Some("inv-binding-homogeneity"@)
            } else if leaves {
                Some("inv-cross-unit-edge"@)
            } else if dangles {
                Some("inv-unresolved-context-ref"@)
            } else if lacks {
                Some("inv-cell-unexecutable"@)
            } else {
                None
            }
        }),
{
    let cells = u.cell_graph@;
    let n = cells.len() as int;
    if exists|i: int| 0 <= i < n && u.edge_leaves(#[trigger] cells[i]) {
        let i = choose|i: int| 0 <= i < n && u.edge_leaves(#[trigger] cells[i]);
        let j = choose|j: int|
            0 <= j < cells[i].depends_on@.len() && !names_cell(
                cells,
                (#[trigger] cells[i].depends_on@[j])@,
            );
        assert forall|k: int| 0 <= k < n implies (#[trigger] cells[k]).cell_id@
            != cells[i].depends_on@[j]@ by {}
    }
    assert forall|i: int, j: int|
        #![trigger cells[i].depends_on@[j]]
        0 <= i < n && 0 <= j < cells[i].depends_on@.len() && (forall|k: int|
            0 <= k < n ==> (#[trigger] cells[k]).cell_id@ != cells[i].depends_on@[j]@) implies
        u.edge_leaves(cells[i]) by {
        assert(!names_cell(cells, cells[i].depends_on@[j]@));
    }
    assert forall|i: int, j: int|
        0 <= i < n && 0 <= j < cells[i].context_refs@.len() && !u.context_pool@.contains_key(
            (#[trigger] cells[i].context_refs@[j])@,
        ) implies u.ref_dangles(cells[i]) by {}
    assert forall|i: int| 0 <= i < n implies (unexecutable(#[trigger] cells[i]) <==> (
    cells[i].schema@ == JsonView::Null || forall|k: int|
        0 <= k < cells[i].prompt@.len() ==> white_space(#[trigger] cells[i].prompt@[k]))) by {}
}

/// A key tells provider, model and quantization: bindings that differ in one of
/// them alone have different keys and different capability identifiers.
pub proof fn law_a_key_tells_bindings_apart(a: ModelBinding, b: ModelBinding)
    requires
        param_texts(a.params.pairs()) == param_texts(b.params.pairs()),
        ({
            ||| a.provider@ != b.provider@ && a.model@ == b.model@ && a.quantization@
                == b.quantization@
            ||| a.provider@ == b.provider@ && a.model@ != b.model@ && a.quantization@
                == b.quantization@
            ||| a.provider@ == b.provider@ && a.model@ == b.model@ && a.quantization@
                != b.quantization@
        }),
    ensures
        a.key_text() != b.key_text(),
        binding_id(a.provider@, a.model@, a.quantization@) != binding_id(
            b.provider@,
            b.model@,
            b.quantization@,
        ),
{
    let tail = "["@ + joined(param_texts(a.params.pairs()), ","@) + "]"@;
    if a.provider@ != b.provider@ {
        let back = "/"@ + a.model@ + "@"@ + a.quantization@;
        lemma_middle(Seq::empty(), a.provider@, b.provider@, back + tail);
        lemma_middle("binding:"@, a.provider@, b.provider@, back);
        assert(a.key_text() =~= Seq::empty() + a.provider@ + (back + tail));
        assert(b.key_text() =~= Seq::empty() + b.provider@ + (back + tail));
        assert(binding_id(a.provider@, a.model@, a.quantization@) =~= "binding:"@ + a.provider@
            + back);
        assert(binding_id(b.provider@, b.model@, b.quantization@) =~= "binding:"@ + b.provider@
            + back);
    } else if a.model@ != b.model@ {
        let front = a.provider@ + "/"@;
        let back = "@"@ + a.quantization@;
        lemma_middle(front, a.model@, b.model@, back + tail);
        lemma_middle("binding:"@ + front, a.model@, b.model@, back);
        assert(a.key_text() =~= front + a.model@ + (back + tail));
        assert(b.key_text() =~= front + b.model@ + (back + tail));
        assert(binding_id(a.provider@, a.model@, a.quantization@) =~= ("binding:"@ + front)
            + a.model@ + back);
        assert(binding_id(b.provider@, b.model@, b.quantization@) =~= ("binding:"@ + front)
            + b.model@ + back);
    } else {
        let front = a.provider@ + "/"@ + a.model@ + "@"@;
        lemma_middle(front, a.quantization@, b.quantization@, tail);
        lemma_middle("binding:"@ + front, a.quantization@, b.quantization@, Seq::empty());
        assert(a.key_text() =~= front + a.quantization@ + tail);
        assert(b.key_text() =~= front + b.quantization@ + tail);
        assert(binding_id(a.provider@, a.model@, a.quantization@) =~= ("binding:"@ + front)
            + a.quantization@ + Seq::empty());
        assert(binding_id(b.provider@, b.model@, b.quantization@) =~= ("binding:"@ + front)
            + b.quantization@ + Seq::empty());
    }
}

proof fn lemma_middle(front: Seq<char>, x: Seq<char>, y: Seq<char>, back: Seq<char>)
    requires
        x != y,
    ensures
        front + x + back != front + y + back,
{
    let a = front + x + back;
    let b = front + y + back;
    if a == b {
        assert(a.len() == front.len() + x.len() + back.len());
        assert(b.len() == front.len() + y.len() + back.len());
        let n = front.len() as int;
        assert(a.subrange(n, n + x.len()) =~= x);
        assert(b.subrange(n, n + y.len()) =~= y);
    }
}

/// A key tells the parameters: bindings that agree but for the value of one
/// parameter have different keys.
pub proof fn law_a_key_tells_parameters_apart(a: ModelBinding, b: ModelBinding, i: int)
    requires
        a.provider@ == b.provider@,
        a.model@ == b.model@,
        a.quantization@ == b.quantization@,
        0 <= i < a.params.pairs().len(),
        a.params.pairs().len() == b.params.pairs().len(),
        forall|k: int|
            0 <= k < a.params.pairs().len() && k != i ==> (#[trigger] a.params.pairs()[k])
                == b.params.pairs()[k],
        a.params.pairs()[i].0 == b.params.pairs()[i].0,
        a.params.pairs()[i].1@ != b.params.pairs()[i].1@,
    ensures
        a.key_text() != b.key_text(),
{
    let x = param_texts(a.params.pairs());
    let y = param_texts(b.params.pairs());
    lemma_middle(
        a.params.pairs()[i].0 + "="@,
        a.params.pairs()[i].1@,
        b.params.pairs()[i].1@,
        Seq::empty(),
    );
    assert(x[i] =~= a.params.pairs()[i].0 + "="@ + a.params.pairs()[i].1@ + Seq::empty());
    assert(y[i] =~= b.params.pairs()[i].0 + "="@ + b.params.pairs()[i].1@ + Seq::empty());
    assert(x =~= y.update(i, x[i]));
    lemma_joined_apart(y, i, x[i], ","@);
    let front = a.provider@ + "/"@ + a.model@ + "@"@ + a.quantization@ + "["@;
    lemma_middle(front, joined(x, ","@), joined(y, ","@), "]"@);
}

proof fn lemma_joined_apart(parts: Seq<Seq<char>>, i: int, x: Seq<char>, sep: Seq<char>)
    requires
        0 <= i < parts.len(),
        x != parts[i],
    ensures
        joined(parts.update(i, x), sep) != joined(parts, sep),
    decreases parts.len(),
{
    let other = parts.update(i, x);
    if parts.len() > 1 {
        let rest = parts.drop_last();
        if i == parts.len() - 1 {
            assert(other.drop_last() =~= rest);
            lemma_middle(joined(rest, sep) + sep, x, parts[i], Seq::empty());
            assert(joined(other, sep) =~= (joined(rest, sep) + sep) + x + Seq::empty());
            assert(joined(parts, sep) =~= (joined(rest, sep) + sep) + parts[i] + Seq::empty());
        } else {
            lemma_joined_apart(rest, i, x, sep);
            assert(other.drop_last() =~= rest.update(i, x));
            let back = sep + parts.last();
            lemma_middle(
                Seq::empty(),
                joined(rest.update(i, x), sep),
                joined(rest, sep),
                back,
            );
            assert(joined(other, sep) =~= Seq::empty() + joined(rest.update(i, x), sep) + back);
            assert(joined(parts, sep) =~= Seq::empty() + joined(rest, sep) + back);
        }
    }
}

// ------------------------------------------------- laws of the capabilities

/// A gate document declares its kind: the last of its members named `kind` is that
/// text.
pub open spec fn declares_kind(gate: Option<Json>, kind: Seq<char>) -> bool {
    gate matches Some(g) && (g@ matches JsonView::Object(members) && exists|m: int|
        {
            &&& 0 <= m < members.len()
            &&& (#[trigger] members[m]).0 == "kind"@
            &&& members[m].1 == JsonView::Text(kind)
            &&& forall|later: int|
                m < later < members.len() ==> (#[trigger] members[later]).0 != "kind"@
        })
}

proof fn lemma_declared_kind(gate: Option<Json>, kind: Seq<char>)
    ensures
        declares_kind(gate, kind) <==> gate_kind(opt_json(gate)) == Some(kind),
{
    if let Some(g) = gate {
        if let JsonView::Object(members) = g@ {
            lemma_last_member(members, "kind"@, members.len() as int);
        }
    }
}

proof fn lemma_last_member(members: Seq<(Seq<char>, JsonView)>, key: Seq<char>, end: int)
    requires
        0 <= end <= members.len(),
    ensures
        match last_member(members, key, end) {
            Some(v) => exists|m: int|
                {
                    &&& 0 <= m < end
                    &&& (#[trigger] members[m]).0 == key
                    &&& members[m].1 == v
                    &&& forall|later: int|
                        m < later < end ==> (#[trigger] members[later]).0 != key
                },
            None => forall|m: int| 0 <= m < end ==> (#[trigger] members[m]).0 != key,
        },
    decreases end,
{
    if end > 0 {
        if members[end - 1].0 == key {
            assert(members[end - 1].1 == last_member(members, key, end)->0);
        } else {
            lemma_last_member(members, key, end - 1);
            if last_member(members, key, end - 1) is Some {
                let v = last_member(members, key, end - 1)->0;
                let m = choose|m: int|
                    {
                        &&& 0 <= m < end - 1
                        &&& (#[trigger] members[m]).0 == key
                        &&& members[m].1 == v
                        &&& forall|later: int|
                            m < later < end - 1 ==> (#[trigger] members[later]).0 != key
                    };
                assert(members[m].0 == key);
            }
        }
    }
}

/// Every cell counts: whatever its place, its shape language, unless blank, and the
/// kind that its gate declares are required.
pub proof fn law_every_cell_is_counted(u: WorkUnit, i: int, kind: Seq<char>)
    requires
        0 <= i < u.cell_graph@.len(),
    ensures
        (exists|k: int|
            0 <= k < u.cell_graph@[i].shape_language@.len() && !white_space(
                #[trigger] u.cell_graph@[i].shape_language@[k],
            )) ==> u.required().contains("shape-language:"@ + u.cell_graph@[i].shape_language@),
        declares_kind(u.cell_graph@[i].gate, kind) ==> u.required().contains("gate:"@ + kind),
{
    let c = u.cell_graph@[i];
    lemma_declared_kind(c.gate, kind);
    if !blank(c.shape_language@) {
        assert(cell_requires(u.cell_graph@[i], "shape-language:"@ + c.shape_language@));
    }
    if declares_kind(c.gate, kind) {
        assert(cell_requires(u.cell_graph@[i], "gate:"@ + kind));
    }
}

/// The binding and the delivery are required: the mode and, for a repository, the
/// scheme of its URL, the way of integration and, where it is remote, the forge.
pub proof fn law_binding_and_delivery_are_required(u: WorkUnit)
    ensures
        u.required().contains(
            "binding:"@ + u.model_binding.provider@ + "/"@ + u.model_binding.model@ + "@"@
                + u.model_binding.quantization@,
        ),
        u.artifact_delivery is Inline ==> u.required().contains("delivery:inline"@),
        u.artifact_delivery matches ArtifactDelivery::Repository { url, base_ref, integration }
            ==> {
            &&& u.required().contains("delivery:repository"@)
            &&& u.required().contains("url-scheme:"@ + scheme_and_host(url@).0)
            &&& integration.method == IntegrationMethod::PushBranch ==> u.required().contains(
                "integration:push-branch"@,
            )
            &&& integration.method == IntegrationMethod::PullRequest ==> u.required().contains(
                "integration:pull-request"@,
            )
            &&& scheme_and_host(url@).1 matches Some(host) ==> u.required().contains(
                "forge:"@ + host,
            )
        },
{
}

/// Nothing else is required than the binding, what the delivery takes, and what
/// some cell takes.
pub proof fn law_nothing_else_is_required(u: WorkUnit, id: Seq<char>)
    requires
        u.required().contains(id),
        id != "binding:"@ + u.model_binding.provider@ + "/"@ + u.model_binding.model@ + "@"@
            + u.model_binding.quantization@,
        u.artifact_delivery is Inline ==> id != "delivery:inline"@,
        u.artifact_delivery matches ArtifactDelivery::Repository { url, base_ref, integration }
            ==> {
            &&& id != "delivery:repository"@
            &&& id != "url-scheme:"@ + scheme_and_host(url@).0
            &&& integration.method == IntegrationMethod::PushBranch ==> id
                != "integration:push-branch"@
            &&& integration.method == IntegrationMethod::PullRequest ==> id
                != "integration:pull-request"@
            &&& scheme_and_host(url@).1 matches Some(host) ==> id != "forge:"@ + host
        },
    ensures
        exists|i: int|
            {
                &&& 0 <= i < u.cell_graph@.len()
                &&& {
                    ||| id == "shape-language:"@ + (#[trigger] u.cell_graph@[i]).shape_language@
                    ||| exists|kind: Seq<char>| #[trigger]
                        declares_kind(u.cell_graph@[i].gate, kind) && id == "gate:"@ + kind
                }
            },
{
    let i = choose|i: int|
        0 <= i < u.cell_graph@.len() && cell_requires(#[trigger] u.cell_graph@[i], id);
    let c = u.cell_graph@[i];
    if id != "shape-language:"@ + c.shape_language@ {
        let kind = gate_kind(opt_json(c.gate))->0;
        lemma_declared_kind(c.gate, kind);
        assert(declares_kind(u.cell_graph@[i].gate, kind));
    }
}

/// A box covers what its manifest lists, each list under its own prefix.
pub proof fn law_a_manifest_covers_what_it_lists(c: Capabilities, i: int)
    ensures
        0 <= i < c.bindings@.len() ==> c.ids().contains(
            "binding:"@ + c.bindings@[i].provider@ + "/"@ + c.bindings@[i].model_id@ + "@"@
                + c.bindings@[i].quantization@,
        ),
        0 <= i < c.delivery.modes@.len() ==> c.ids().contains(
            "delivery:"@ + c.delivery.modes@[i]@,
        ),
        0 <= i < c.delivery.url_schemes@.len() ==> c.ids().contains(
            "url-scheme:"@ + c.delivery.url_schemes@[i]@,
        ),
        0 <= i < c.delivery.integration_methods@.len() ==> c.ids().contains(
            "integration:"@ + c.delivery.integration_methods@[i]@,
        ),
        0 <= i < c.delivery.forges@.len() ==> c.ids().contains("forge:"@ + c.delivery.forges@[i]@),
        0 <= i < c.shape_languages@.len() ==> c.ids().contains(
            "shape-language:"@ + c.shape_languages@[i]@,
        ),
        0 <= i < c.gate_kinds@.len() ==> c.ids().contains("gate:"@ + c.gate_kinds@[i]@),
{
    if 0 <= i < c.bindings@.len() {
        let b = c.bindings@[i];
        let id = binding_id(b.provider@, b.model_id@, b.quantization@);
        assert(binding_ids(c.bindings@).contains(id));
    }
    if 0 <= i < c.delivery.modes@.len() {
        assert(prefixed_ids("delivery:"@, c.delivery.modes@).contains(
            "delivery:"@ + c.delivery.modes@[i]@,
        ));
    }
    if 0 <= i < c.delivery.url_schemes@.len() {
        assert(prefixed_ids("url-scheme:"@, c.delivery.url_schemes@).contains(
            "url-scheme:"@ + c.delivery.url_schemes@[i]@,
        ));
    }
    if 0 <= i < c.delivery.integration_methods@.len() {
        assert(prefixed_ids("integration:"@, c.delivery.integration_methods@).contains(
            "integration:"@ + c.delivery.integration_methods@[i]@,
        ));
    }
    if 0 <= i < c.delivery.forges@.len() {
        assert(prefixed_ids("forge:"@, c.delivery.forges@).contains(
            "forge:"@ + c.delivery.forges@[i]@,
        ));
    }
    if 0 <= i < c.shape_languages@.len() {
        assert(prefixed_ids("shape-language:"@, c.shape_languages@).contains(
            "shape-language:"@ + c.shape_languages@[i]@,
        ));
    }
    if 0 <= i < c.gate_kinds@.len() {
        assert(prefixed_ids("gate:"@, c.gate_kinds@).contains("gate:"@ + c.gate_kinds@[i]@));
    }
}

/// The identifiers of each list begin with a letter of their own.
proof fn lemma_prefixes_differ(c: Capabilities, id: Seq<char>)
    requires
        c.ids().contains(id),
        id.len() > 0,
    ensures
        id[0] == 'b' ==> binding_ids(c.bindings@).contains(id),
        id[0] == 'd' ==> prefixed_ids("delivery:"@, c.delivery.modes@).contains(id),
        id[0] == 'u' ==> prefixed_ids("url-scheme:"@, c.delivery.url_schemes@).contains(id),
        id[0] == 'i' ==> prefixed_ids("integration:"@, c.delivery.integration_methods@).contains(
            id,
        ),
        id[0] == 'f' ==> prefixed_ids("forge:"@, c.delivery.forges@).contains(id),
        id[0] == 's' ==> prefixed_ids("shape-language:"@, c.shape_languages@).contains(id),
        id[0] == 'g' ==> prefixed_ids("gate:"@, c.gate_kinds@).contains(id),
{
    reveal_strlit("binding:");
    reveal_strlit("delivery:");
    reveal_strlit("url-scheme:");
    reveal_strlit("integration:");
    reveal_strlit("forge:");
    reveal_strlit("shape-language:");
    reveal_strlit("gate:");
    if binding_ids(c.bindings@).contains(id) {
        assert(id[0] == 'b');
    }
    if prefixed_ids("delivery:"@, c.delivery.modes@).contains(id) {
        assert(id[0] == 'd');
    }
    if prefixed_ids("url-scheme:"@, c.delivery.url_schemes@).contains(id) {
        assert(id[0] == 'u');
    }
    if prefixed_ids("integration:"@, c.delivery.integration_methods@).contains(id) {
        assert(id[0] == 'i');
    }
    if prefixed_ids("forge:"@, c.delivery.forges@).contains(id) {
        assert(id[0] == 'f');
    }
    if prefixed_ids("shape-language:"@, c.shape_languages@).contains(id) {
        assert(id[0] == 's');
    }
    if prefixed_ids("gate:"@, c.gate_kinds@).contains(id) {
        assert(id[0] == 'g');
    }
}

proof fn lemma_listed_behind_prefix(prefix: Seq<char>, names: Seq<String>, name: Seq<char>)
    requires
        prefixed_ids(prefix, names).contains(prefix + name),
    ensures
        texts(names).contains(name),
{
    let k = choose|k: int| 0 <= k < names.len() && prefix + name == prefix + (#[trigger] names[k])@;
    assert((prefix + name).skip(prefix.len() as int) =~= name);
    assert((prefix + names[k]@).skip(prefix.len() as int) =~= names[k]@);
    assert(texts(names)[k] == name);
}

/// A box lacks what its manifest does not list: a unit with any cell whose shape
/// language or whose kind of gate is not listed is at a distance.
pub proof fn law_what_is_not_listed_is_missing(
    m: CapabilityManifest,
    u: WorkUnit,
    i: int,
    kind: Seq<char>,
)
    requires
        0 <= i < u.cell_graph@.len(),
    ensures
        ({
            let language = u.cell_graph@[i].shape_language@;
            (exists|k: int| 0 <= k < language.len() && !white_space(#[trigger] language[k]))
                && !texts(m.capabilities.shape_languages@).contains(language) ==> m.distance(
                u,
            ).contains("shape-language:"@ + language)
        }),
        declares_kind(u.cell_graph@[i].gate, kind) && !texts(
            m.capabilities.gate_kinds@,
        ).contains(kind) ==> m.distance(u).contains("gate:"@ + kind),
{
    let c = u.cell_graph@[i];
    let language = c.shape_language@;
    law_every_cell_is_counted(u, i, kind);
    reveal_strlit("shape-language:");
    reveal_strlit("gate:");
    let a = "shape-language:"@ + language;
    let b = "gate:"@ + kind;
    assert(a[0] == 's' && b[0] == 'g');
    if m.capabilities.ids().contains(a) {
        lemma_prefixes_differ(m.capabilities, a);
        lemma_listed_behind_prefix("shape-language:"@, m.capabilities.shape_languages@, language);
    }
    if m.capabilities.ids().contains(b) {
        lemma_prefixes_differ(m.capabilities, b);
        lemma_listed_behind_prefix("gate:"@, m.capabilities.gate_kinds@, kind);
    }
}

/// The binding and the mode of delivery have to be listed as well.
pub proof fn law_binding_and_mode_have_to_be_listed(m: CapabilityManifest, u: WorkUnit)
    ensures
        (forall|i: int|
            0 <= i < m.capabilities.bindings@.len() ==> (
            #[trigger] m.capabilities.bindings@[i]).quantization@ != u.model_binding.quantization@
                && m.capabilities.bindings@[i].provider@ == u.model_binding.provider@
                && m.capabilities.bindings@[i].model_id@ == u.model_binding.model@) ==> m.distance(
            u,
        ) != Set::<Seq<char>>::empty(),
        u.artifact_delivery is Inline && (forall|i: int|
            0 <= i < m.capabilities.delivery.modes@.len() ==> (
            #[trigger] m.capabilities.delivery.modes@[i])@ != "inline"@) ==> m.distance(u).contains(
            "delivery:inline"@,
        ),
        u.artifact_delivery is Repository && (forall|i: int|
            0 <= i < m.capabilities.delivery.modes@.len() ==> (
            #[trigger] m.capabilities.delivery.modes@[i])@ != "repository"@) ==> m.distance(
            u,
        ).contains("delivery:repository"@),
{
    law_binding_and_delivery_are_required(u);
    let c = m.capabilities;
    reveal_strlit("binding:");
    reveal_strlit("delivery:");
    reveal_strlit("delivery:inline");
    reveal_strlit("delivery:repository");
    reveal_strlit("inline");
    reveal_strlit("repository");
    let id = binding_id(
        u.model_binding.provider@,
        u.model_binding.model@,
        u.model_binding.quantization@,
    );
    assert(id[0] == 'b');
    if c.ids().contains(id) {
        lemma_prefixes_differ(c, id);
        let i = choose|i: int|
            0 <= i < c.bindings@.len() && id == binding_id(
                (#[trigger] c.bindings@[i]).provider@,
                c.bindings@[i].model_id@,
                c.bindings@[i].quantization@,
            );
        let front = "binding:"@ + u.model_binding.provider@ + "/"@ + u.model_binding.model@ + "@"@;
        if c.bindings@[i].quantization@ != u.model_binding.quantization@
            && c.bindings@[i].provider@ == u.model_binding.provider@ && c.bindings@[i].model_id@
            == u.model_binding.model@ {
            lemma_middle(
                front,
                u.model_binding.quantization@,
                c.bindings@[i].quantization@,
                Seq::empty(),
            );
            assert(id =~= front + u.model_binding.quantization@ + Seq::empty());
            assert(id =~= front + c.bindings@[i].quantization@ + Seq::empty());
        }
    } else {
        assert(m.distance(u).contains(id));
    }
    assert("delivery:inline"@ =~= "delivery:"@ + "inline"@);
    assert("delivery:repository"@ =~= "delivery:"@ + "repository"@);
    if c.ids().contains("delivery:inline"@) {
        lemma_prefixes_differ(c, "delivery:inline"@);
        lemma_listed_behind_prefix("delivery:"@, c.delivery.modes@, "inline"@);
        let k = choose|k: int|
            0 <= k < texts(c.delivery.modes@).len() && texts(c.delivery.modes@)[k] == "inline"@;
        assert(c.delivery.modes@[k]@ == "inline"@);
    }
    if c.ids().contains("delivery:repository"@) {
        lemma_prefixes_differ(c, "delivery:repository"@);
        lemma_listed_behind_prefix("delivery:"@, c.delivery.modes@, "repository"@);
        let k = choose|k: int|
            0 <= k < texts(c.delivery.modes@).len() && texts(c.delivery.modes@)[k]
                == "repository"@;
        assert(c.delivery.modes@[k]@ == "repository"@);
    }
}

/// The distance is what is required and not covered.
pub proof fn law_the_distance_is_what_is_required_and_not_covered(
    m: CapabilityManifest,
    u: WorkUnit,
    id: Seq<char>,
)
    ensures
        m.distance(u).contains(id) <==> u.required().contains(id) && !m.capabilities.ids().contains(
            id,
        ),
{
}

// ---------------------------------------------------------- laws of the URLs

/// A host as it stands in a URL.
pub open spec fn is_host(host: Seq<char>) -> bool {
    &&& host.len() > 0
    &&& !host.contains('/')
    &&& !host.contains(':')
}

/// What may follow a host in a URL: a port, a path, or nothing.
pub open spec fn follows_host(rest: Seq<char>) -> bool {
    rest.len() == 0 || rest[0] == '/' || rest[0] == ':'
}

proof fn lemma_leading_host(host: Seq<char>, rest: Seq<char>)
    requires
        is_host(host),
        follows_host(rest),
    ensures
        leading_host(host + rest) == Some(host),
{
    let s = host + rest;
    lemma_first_stop(s, '/', ':');
    let n = host.len() as int;
    let stop = first_stop(s, '/', ':');
    assert forall|i: int| 0 <= i < n implies s[i] != '/' && s[i] != ':' by {
        assert(host.contains(host[i]));
        assert(s[i] == host[i]);
    }
    if stop > n {
        assert(s[n] == rest[0]);
    }
    assert(stop == n);
    assert(s.take(n) =~= host);
}

proof fn lemma_scheme_texts()
    ensures
        "file://"@ == seq!['f', 'i', 'l', 'e', ':', '/', '/'],
        "https://"@ == seq!['h', 't', 't', 'p', 's', ':', '/', '/'],
        "http://"@ == seq!['h', 't', 't', 'p', ':', '/', '/'],
        "ssh://"@ == seq!['s', 's', 'h', ':', '/', '/'],
        "git://"@ == seq!['g', 'i', 't', ':', '/', '/'],
{
    reveal_strlit("file://");
    reveal_strlit("https://");
    reveal_strlit("http://");
    reveal_strlit("ssh://");
    reveal_strlit("git://");
    assert("file://"@ =~= seq!['f', 'i', 'l', 'e', ':', '/', '/']);
    assert("https://"@ =~= seq!['h', 't', 't', 'p', 's', ':', '/', '/']);
    assert("http://"@ =~= seq!['h', 't', 't', 'p', ':', '/', '/']);
    assert("ssh://"@ =~= seq!['s', 's', 'h', ':', '/', '/']);
    assert("git://"@ =~= seq!['g', 'i', 't', ':', '/', '/']);
}

/// A URL that begins with something else does not begin with the prefix.
proof fn lemma_other_prefix(url: Seq<char>, p: Seq<char>, k: int)
    requires
        0 <= k < p.len(),
        k < url.len() ==> url[k] != p[k],
    ensures
        stripped(url, p) is None,
{
    if stripped(url, p) is Some {
        law_a_prefix_is_taken_off(p, Seq::empty(), url);
        assert(url[k] == p[k]);
    }
}

/// The scheme and the host are read off a URL, whatever port and path follow:
/// plain HTTP counts as HTTPS, and a local repository has no host.
pub proof fn law_a_url_tells_its_scheme_and_host(host: Seq<char>, rest: Seq<char>, path: Seq<char>)
    requires
        is_host(host),
        follows_host(rest),
    ensures
        scheme_and_host("file://"@ + path) == ("file"@, None::<Seq<char>>),
        scheme_and_host("https://"@ + (host + rest)) == ("https"@, Some(host)),
        scheme_and_host("http://"@ + (host + rest)) == ("https"@, Some(host)),
        scheme_and_host("ssh://"@ + (host + rest)) == ("ssh"@, Some(host)),
        scheme_and_host("git://"@ + (host + rest)) == ("git"@, Some(host)),
{
    lemma_scheme_texts();
    lemma_leading_host(host, rest);
    let at = host + rest;
    law_a_prefix_is_taken_off("file://"@, path, Seq::empty());
    law_a_prefix_is_taken_off("https://"@, at, Seq::empty());
    law_a_prefix_is_taken_off("http://"@, at, Seq::empty());
    law_a_prefix_is_taken_off("ssh://"@, at, Seq::empty());
    law_a_prefix_is_taken_off("git://"@, at, Seq::empty());
    let https = "https://"@ + at;
    let http = "http://"@ + at;
    let ssh = "ssh://"@ + at;
    let git = "git://"@ + at;
    assert(https[0] == 'h' && http[0] == 'h' && ssh[0] == 's' && git[0] == 'g' && http[4] == ':');
    lemma_other_prefix(https, "file://"@, 0);
    lemma_other_prefix(http, "file://"@, 0);
    lemma_other_prefix(http, "https://"@, 4);
    lemma_other_prefix(ssh, "file://"@, 0);
    lemma_other_prefix(ssh, "https://"@, 0);
    lemma_other_prefix(ssh, "http://"@, 0);
    lemma_other_prefix(git, "file://"@, 0);
    lemma_other_prefix(git, "https://"@, 0);
    lemma_other_prefix(git, "http://"@, 0);
    lemma_other_prefix(git, "ssh://"@, 0);
}

/// An address of the form `user@host:path` is reached by SSH; one with no scheme and
/// no user is local.
pub proof fn law_an_scp_address_tells_its_host(
    user: Seq<char>,
    host: Seq<char>,
    path: Seq<char>,
    local: Seq<char>,
)
    requires
        !user.contains(':'),
        !user.contains('@'),
        !host.contains(':'),
        !local.contains(':'),
    ensures
        scheme_and_host(user + seq!['@'] + host + seq![':'] + path) == ("ssh"@, Some(host)),
        scheme_and_host(local) == ("file"@, None::<Seq<char>>),
{
    let front = user + seq!['@'] + host;
    let url = front + seq![':'] + path;
    assert(!front.contains(':')) by {
        if front.contains(':') {
            let k = choose|k: int| 0 <= k < front.len() && front[k] == ':';
            if k < user.len() {
                assert(user.contains(user[k]));
            } else if k > user.len() {
                assert(host.contains(host[k - user.len() - 1]));
            }
        }
    }
    law_a_text_is_cut_at_the_first(front, ':', path);
    law_a_text_is_cut_at_the_first(user, '@', host);
    law_a_text_is_cut_at_the_first(local, ':', Seq::empty());
    lemma_scheme_texts();
    lemma_no_scheme(front, path, "file://"@, 4, user.len() as int);
    lemma_no_scheme(front, path, "https://"@, 5, user.len() as int);
    lemma_no_scheme(front, path, "http://"@, 4, user.len() as int);
    lemma_no_scheme(front, path, "ssh://"@, 3, user.len() as int);
    lemma_no_scheme(front, path, "git://"@, 3, user.len() as int);
    lemma_no_colon(local, "file://"@, 4);
    lemma_no_colon(local, "https://"@, 5);
    lemma_no_colon(local, "http://"@, 4);
    lemma_no_colon(local, "ssh://"@, 3);
    lemma_no_colon(local, "git://"@, 3);
}

proof fn lemma_no_colon(s: Seq<char>, p: Seq<char>, k: int)
    requires
        0 <= k < p.len(),
        p[k] == ':',
        !s.contains(':'),
    ensures
        stripped(s, p) is None,
{
    if k < s.len() {
        assert(s.contains(s[k]));
    }
    lemma_other_prefix(s, p, k);
}

proof fn lemma_no_scheme(front: Seq<char>, path: Seq<char>, p: Seq<char>, k: int, at: int)
    requires
        0 <= k < p.len(),
        p[k] == ':',
        forall|i: int| 0 <= i < k ==> (#[trigger] p[i]) != '@',
        0 <= at < front.len(),
        front[at] == '@',
        !front.contains(':'),
    ensures
        stripped(front + seq![':'] + path, p) is None,
{
    let url = front + seq![':'] + path;
    if k < front.len() {
        assert(front.contains(front[k]));
        assert(url[k] == front[k]);
        lemma_other_prefix(url, p, k);
    } else {
        assert(url[at] == '@');
        assert(p[at] != '@');
        lemma_other_prefix(url, p, at);
    }
}

/// A unit is homogeneous exactly if each of its cells has the key of the unit.
pub proof fn law_a_homogeneous_unit_wants_one_binding(u: WorkUnit, i: int)
    ensures
        u.homogeneous() && 0 <= i < u.cell_graph@.len() ==> u.cell_graph@[i].binding.key_text()
            == u.model_binding.key_text(),
        0 <= i < u.cell_graph@.len() && u.cell_graph@[i].binding.key_text()
            != u.model_binding.key_text() ==> !u.homogeneous(),
        u.cell_graph@.len() == 0 ==> u.homogeneous(),
{
}

/// A bare result tells its cell and its verdict, and passed exactly if that is
/// acceptance.
pub proof fn law_a_bare_result_tells_its_verdict(
    r: CellResult,
    id: Seq<char>,
    verdict: CellVerdict,
)
    requires
        r.bare(id, verdict),
    ensures
        r.cell_id@ == id,
        r.verdict == verdict,
        r.passed <==> verdict == CellVerdict::Accepted,
        r.artifact is None,
        r.evidence is None,
{
}

/// Copies of bindings and of capabilities lose nothing.
pub proof fn law_same_is_field_by_field(
    a: ModelBinding,
    b: ModelBinding,
    c: Capabilities,
    d: Capabilities,
)
    ensures
        a.same_as(&b) ==> a.provider@ == b.provider@ && a.model@ == b.model@ && a.quantization@
            == b.quantization@ && a.revision == b.revision && a.params.pairs() == b.params.pairs(),
        c.same_as(&d) ==> c.bindings@ == d.bindings@ && c.shape_languages@ == d.shape_languages@
            && c.gate_kinds@ == d.gate_kinds@ && c.delivery.modes@ == d.delivery.modes@
            && c.delivery.url_schemes@ == d.delivery.url_schemes@
            && c.delivery.integration_methods@ == d.delivery.integration_methods@
            && c.delivery.forges@ == d.delivery.forges@,
{
}

/// A box covers nothing but what its manifest lists.
pub proof fn law_a_manifest_covers_nothing_else(c: Capabilities, id: Seq<char>)
    requires
        c.ids().contains(id),
    ensures
        ({
            ||| exists|i: int|
                0 <= i < c.bindings@.len() && id == "binding:"@ + (
                #[trigger] c.bindings@[i]).provider@ + "/"@ + c.bindings@[i].model_id@ + "@"@
                    + c.bindings@[i].quantization@
            ||| exists|i: int|
                0 <= i < c.delivery.modes@.len() && id == "delivery:"@ + (
                #[trigger] c.delivery.modes@[i])@
            ||| exists|i: int|
                0 <= i < c.delivery.url_schemes@.len() && id == "url-scheme:"@ + (
                #[trigger] c.delivery.url_schemes@[i])@
            ||| exists|i: int|
                0 <= i < c.delivery.integration_methods@.len() && id == "integration:"@ + (
                #[trigger] c.delivery.integration_methods@[i])@
            ||| exists|i: int|
                0 <= i < c.delivery.forges@.len() && id == "forge:"@ + (
                #[trigger] c.delivery.forges@[i])@
            ||| exists|i: int|
                0 <= i < c.shape_languages@.len() && id == "shape-language:"@ + (
                #[trigger] c.shape_languages@[i])@
            ||| exists|i: int|
                0 <= i < c.gate_kinds@.len() && id == "gate:"@ + (#[trigger] c.gate_kinds@[i])@
        }),
{
}

/// A key spells its binding: provider, model, quantization, and each parameter by
/// name and value.
pub proof fn law_a_key_spells_its_binding(b: ModelBinding, i: int)
    ensures
        b.key_text() == b.provider@ + "/"@ + b.model@ + "@"@ + b.quantization@ + "["@ + joined(
            param_texts(b.params.pairs()),
            ","@,
        ) + "]"@,
        param_texts(b.params.pairs()).len() == b.params.pairs().len(),
        0 <= i < b.params.pairs().len() ==> param_texts(b.params.pairs())[i]
            == b.params.pairs()[i].0 + "="@ + b.params.pairs()[i].1@,
{
}

/// A URL with a scheme and no host has none; an address with a colon but no user is
/// local.
pub proof fn law_without_a_host_there_is_none(
    rest: Seq<char>,
    name: Seq<char>,
    path: Seq<char>,
)
    requires
        follows_host(rest),
        !name.contains(':'),
        !name.contains('@'),
        path.len() < 2 || path[0] != '/' || path[1] != '/',
    ensures
        scheme_and_host("https://"@ + rest) == ("https"@, None::<Seq<char>>),
        scheme_and_host("http://"@ + rest) == ("https"@, None::<Seq<char>>),
        scheme_and_host("ssh://"@ + rest) == ("ssh"@, None::<Seq<char>>),
        scheme_and_host("git://"@ + rest) == ("git"@, None::<Seq<char>>),
        scheme_and_host(name + seq![':'] + path) == ("file"@, None::<Seq<char>>),
{
    lemma_scheme_texts();
    lemma_first_stop(rest, '/', ':');
    assert(first_stop(rest, '/', ':') == 0) by {
        if first_stop(rest, '/', ':') > 0 {
            assert(rest[0] != '/' && rest[0] != ':');
        }
    }
    assert(leading_host(rest) is None);
    law_a_prefix_is_taken_off("https://"@, rest, Seq::empty());
    law_a_prefix_is_taken_off("http://"@, rest, Seq::empty());
    law_a_prefix_is_taken_off("ssh://"@, rest, Seq::empty());
    law_a_prefix_is_taken_off("git://"@, rest, Seq::empty());
    let https = "https://"@ + rest;
    let http = "http://"@ + rest;
    let ssh = "ssh://"@ + rest;
    let git = "git://"@ + rest;
    assert(https[0] == 'h' && http[0] == 'h' && ssh[0] == 's' && git[0] == 'g' && http[4] == ':');
    lemma_other_prefix(https, "file://"@, 0);
    lemma_other_prefix(http, "file://"@, 0);
    lemma_other_prefix(http, "https://"@, 4);
    lemma_other_prefix(ssh, "file://"@, 0);
    lemma_other_prefix(ssh, "https://"@, 0);
    lemma_other_prefix(ssh, "http://"@, 0);
    lemma_other_prefix(git, "file://"@, 0);
    lemma_other_prefix(git, "https://"@, 0);
    lemma_other_prefix(git, "http://"@, 0);
    lemma_other_prefix(git, "ssh://"@, 0);
    law_a_text_is_cut_at_the_first(name, ':', path);
    law_a_text_is_cut_at_the_first(name, '@', Seq::empty());
    lemma_no_slashes(name, path, "file://"@, 4);
    lemma_no_slashes(name, path, "https://"@, 5);
    lemma_no_slashes(name, path, "http://"@, 4);
    lemma_no_slashes(name, path, "ssh://"@, 3);
    lemma_no_slashes(name, path, "git://"@, 3);
}

/// An address whose first colon is not followed by two slashes begins with no scheme.
proof fn lemma_no_slashes(name: Seq<char>, path: Seq<char>, p: Seq<char>, k: int)
    requires
        0 <= k,
        p.len() == k + 3,
        p[k] == ':',
        p[k + 1] == '/',
        p[k + 2] == '/',
        forall|i: int| 0 <= i < k ==> (#[trigger] p[i]) != ':',
        !name.contains(':'),
        path.len() < 2 || path[0] != '/' || path[1] != '/',
    ensures
        stripped(name + seq![':'] + path, p) is None,
{
    let url = name + seq![':'] + path;
    let n = name.len() as int;
    if n > k {
        assert(name.contains(name[k]));
        assert(url[k] == name[k]);
        lemma_other_prefix(url, p, k);
    } else if n < k {
        assert(url[n] == ':');
        assert(p[n] != ':');
        lemma_other_prefix(url, p, n);
    } else if path.len() == 0 || path[0] != '/' {
        if path.len() > 0 {
            assert(url[k + 1] == path[0]);
        }
        lemma_other_prefix(url, p, k + 1);
    } else {
        if path.len() > 1 {
            assert(url[k + 2] == path[1]);
        }
        lemma_other_prefix(url, p, k + 2);
    }
}

} // verus!
