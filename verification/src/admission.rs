//! Admission of a unit from the record that it arrives as: the nested record is
//! flattened into the executor's own model.
use vstd::prelude::*;

use crate::interface::canonical::{
    CanonicalBinding, CanonicalCell, CanonicalFragment, CanonicalWorkUnit,
};
use crate::interface::{
    declares_kind, law_binding_and_delivery_are_required, law_every_cell_is_counted, Cell,
    CellOutput, ContextFragment, Environment, ModelBinding, WorkUnit,
};
use crate::json::{json_result, json_text, opt_json, parse, render, Json, JsonView};
use crate::sorted::{keys_increase, lemma_pairs_map_at, StrMap};
use crate::text::{lemma_lex_irreflexive, lex_lt, opt_text, white_space};

verus! {

/// A document as the flat model carries it: a bare string passes through, `null`
/// is the empty text, anything structured is its compact JSON text.
pub open spec fn flat_text(v: JsonView) -> Seq<char> {
    match v {
        JsonView::Text(s) => s,
        JsonView::Null => Seq::empty(),
        _ => json_text(v),
    }
}

/// A document rendered as the text that the flat model carries.
pub fn json_to_string(v: &Json) -> (r: String)
    ensures
        r@ == flat_text(v@),
{
    match v {
        Json::Text(s) => s.clone(),
        Json::Null => String::new(),
        _ => render(v),
    }
}

/// The unit's binding is the declared one, each invocation parameter as text.
pub open spec fn binding_of(b: CanonicalBinding, m: ModelBinding) -> bool {
    &&& m.provider == b.provider
    &&& m.model == b.model_id
    &&& m.revision == b.revision
    &&& m.quantization == b.quantization
    &&& m.params@.dom() == b.invocation@.dom()
    &&& forall|k: Seq<char>|
        b.invocation@.contains_key(k) ==> (#[trigger] m.params@[k])@ == flat_text(
            b.invocation@[k]@,
        )
}

/// The fragment's content as text, with its provenance or, without one, its role.
pub open spec fn fragment_of(f: CanonicalFragment, c: ContextFragment) -> bool {
    &&& c.content@ == flat_text(f.content@)
    &&& opt_text(c.provenance) == match f.provenance {
        Some(p) => Some(flat_text(p@)),
        None => opt_text(f.role),
    }
}

/// Whether fragment `i` is the last with its id.
pub open spec fn last_of_its_id(fragments: Seq<CanonicalFragment>, i: int) -> bool {
    forall|j: int| i < j < fragments.len() ==> (#[trigger] fragments[j]).id@ != fragments[i].id@
}

/// The pool holds the fragments by id; where an id occurs twice, the last stands.
pub open spec fn pool_of(
    fragments: Seq<CanonicalFragment>,
    pool: Map<Seq<char>, ContextFragment>,
) -> bool {
    &&& forall|k: Seq<char>|
        #![trigger pool.contains_key(k)]
        pool.contains_key(k) <==> exists|i: int|
            0 <= i < fragments.len() && (#[trigger] fragments[i]).id@ == k
    &&& forall|i: int|
        0 <= i < fragments.len() && last_of_its_id(fragments, i) ==> fragment_of(
            #[trigger] fragments[i],
            pool[fragments[i].id@],
        )
}

/// The flat cell of a declared one, at the binding of the unit.
pub open spec fn cell_of(c: CanonicalCell, binding: ModelBinding, r: Cell) -> bool {
    &&& r.cell_id == c.id
    &&& r.binding.same_as(&binding)
    &&& r.depends_on == c.requires
    &&& r.prompt@ == flat_text(c.prompt.content@)
    &&& r.schema == c.schema.document
    &&& r.shape_language == c.schema.shape_language
    &&& r.context_refs == c.context_refs
    &&& r.output matches Some(o) && o.artifact_id == c.output.artifact_id && o.path
        == c.output.path && o.media_type@ == match c.output.media_type {
        Some(m) => m@,
        None => Seq::empty(),
    }
    &&& r.gate == c.gate
}

/// The declared boundary, or the floor: no network, and a workspace named after the unit.
pub open spec fn environment_of(c: CanonicalWorkUnit, e: Environment) -> bool {
    match c.environment {
        Some(declared) => e == declared,
        None => e.network@.len() == 0 && e.workspace@ == c.unit_ref@ + "-ws"@,
    }
}

/// `w` is the flat model of `c`, whatever document it holds as its bundle.
pub open spec fn flattened(c: CanonicalWorkUnit, w: WorkUnit) -> bool {
    &&& w.unit_ref == c.unit_ref
    &&& w.parent_deliverable == c.parent_deliverable
    &&& w.bundle_hash == c.bundle_hash
    &&& binding_of(c.spmc_bundle.model.binding, w.model_binding)
    &&& w.tier == c.tier
    &&& w.acceptance_class == c.acceptance_class
    &&& w.ladder_position == c.ladder_position
    &&& w.artifact_delivery == c.artifact_delivery
    &&& pool_of(c.spmc_bundle.context_pool.fragments@, w.context_pool@)
    &&& w.cell_graph@.len() == c.cell_graph.cells@.len()
    &&& forall|i: int|
        0 <= i < w.cell_graph@.len() ==> cell_of(
            c.cell_graph.cells@[i],
            w.model_binding,
            #[trigger] w.cell_graph@[i],
        )
    &&& environment_of(c, w.environment)
    &&& w.credential_grant == c.credential_grant
    &&& match c.tool_grants {
        Some(grants) => w.tool_grants == grants,
        None => w.tool_grants@.len() == 0,
    }
}

fn flat_binding(b: CanonicalBinding) -> (m: ModelBinding)
    ensures
        binding_of(b, m),
{
    let mut params: StrMap<String> = StrMap::new();
    let n: usize = b.invocation.len();
    let ghost pairs = b.invocation.pairs();
    let mut i: usize = 0;
    while i < n
        invariant
            n == pairs.len(),
            i <= n,
            pairs == b.invocation.pairs(),
            keys_increase(pairs),
            forall|k: Seq<char>|
                #![trigger params@.contains_key(k)]
                params@.contains_key(k) <==> exists|j: int|
                    0 <= j < i && (#[trigger] pairs[j]).0 == k,
            forall|j: int|
                0 <= j < i ==> params@[(#[trigger] pairs[j]).0]@ == flat_text(pairs[j].1@),
        decreases n - i,
    {
        let ghost before = params@;
        params.insert(b.invocation.key(i).clone(), json_to_string(b.invocation.value(i)));
        proof {
            assert forall|j: int| 0 <= j < i implies (#[trigger] pairs[j]).0 != pairs[i as int].0 by {
                assert(lex_lt(pairs[j].0, pairs[i as int].0));
                lemma_lex_irreflexive(pairs[j].0);
            }
            assert(before.contains_key(pairs[i as int].0) ==> false);
        }
        i += 1;
    }
    proof {
        assert forall|k: Seq<char>|
            #![trigger params@.contains_key(k)]
            params@.contains_key(k) <==> b.invocation@.contains_key(k) by {
            if params@.contains_key(k) {
                let j = choose|j: int| 0 <= j < i && (#[trigger] pairs[j]).0 == k;
                lemma_pairs_map_at(pairs, j);
            }
            if b.invocation@.contains_key(k) {
                let j = choose|j: int| crate::sorted::key_at(pairs, k, j);
                assert(crate::sorted::key_at(pairs, k, j));
                assert(pairs[j].0 == k);
            }
        }
        assert forall|k: Seq<char>| b.invocation@.contains_key(k) implies (
        #[trigger] params@[k])@ == flat_text(b.invocation@[k]@) by {
            let j = choose|j: int| crate::sorted::key_at(pairs, k, j);
            assert(crate::sorted::key_at(pairs, k, j));
            lemma_pairs_map_at(pairs, j);
            assert(pairs[j].0 == k);
        }
        assert(params@.dom() =~= b.invocation@.dom());
    }
    ModelBinding {
        provider: b.provider,
        model: b.model_id,
        revision: b.revision,
        quantization: b.quantization,
        params,
    }
}

fn flat_fragment(f: &CanonicalFragment) -> (r: ContextFragment)
    ensures
        fragment_of(*f, r),
{
    let provenance = match &f.provenance {
        Some(p) => Some(json_to_string(p)),
        None => f.role.clone(),
    };
    ContextFragment { content: json_to_string(&f.content), provenance }
}

fn flat_pool(fragments: &Vec<CanonicalFragment>) -> (r: StrMap<ContextFragment>)
    ensures
        pool_of(fragments@, r@),
{
    let mut pool: StrMap<ContextFragment> = StrMap::new();
    let mut i: usize = 0;
    while i < fragments.len()
        invariant
            i <= fragments@.len(),
            pool_of(fragments@.take(i as int), pool@),
        decreases fragments@.len() - i,
    {
        let ghost before = pool@;
        let f: &CanonicalFragment = &fragments[i];
        pool.insert(f.id.clone(), flat_fragment(f));
        proof {
            let done = fragments@.take(i as int);
            let more = fragments@.take(i + 1);
            assert forall|k: Seq<char>|
                #![trigger pool@.contains_key(k)]
                pool@.contains_key(k) <==> exists|j: int|
                    0 <= j < more.len() && (#[trigger] more[j]).id@ == k by {
                if before.contains_key(k) {
                    let j = choose|j: int| 0 <= j < done.len() && (#[trigger] done[j]).id@ == k;
                    assert(more[j] == done[j]);
                }
                assert(more[i as int] == *f);
                if exists|j: int| 0 <= j < more.len() && (#[trigger] more[j]).id@ == k {
                    let j = choose|j: int| 0 <= j < more.len() && (#[trigger] more[j]).id@ == k;
                    if j < i {
                        assert(more[j] == done[j]);
                        assert(before.contains_key(k));
                    }
                }
            }
            assert forall|j: int|
                0 <= j < more.len() && last_of_its_id(more, j) implies fragment_of(
                #[trigger] more[j],
                pool@[more[j].id@],
            ) by {
                if j < i {
                    assert(more[i as int].id@ != more[j].id@);
                    assert(done[j] == more[j]);
                    assert forall|k: int| j < k < done.len() implies (#[trigger] done[k]).id@
                        != done[j].id@ by {
                        assert(more[k] == done[k]);
                    }
                    assert(last_of_its_id(done, j));
                    assert(before.contains_key(done[j].id@));
                }
            }
        }
        i += 1;
    }
    assert(fragments@.take(i as int) =~= fragments@);
    pool
}

fn flat_cell(c: CanonicalCell, binding: &ModelBinding) -> (r: Cell)
    ensures
        cell_of(c, *binding, r),
{
    let prompt: String = json_to_string(&c.prompt.content);
    let media_type = match c.output.media_type {
        Some(m) => m,
        None => String::new(),
    };
    Cell {
        cell_id: c.id,
        binding: binding.clone(),
        depends_on: c.requires,
        prompt,
        schema: c.schema.document,
        shape_language: c.schema.shape_language,
        context_refs: c.context_refs,
        output: Some(
            CellOutput { artifact_id: c.output.artifact_id, media_type, path: c.output.path },
        ),
        gate: c.gate,
    }
}

fn flat_cells(cells: Vec<CanonicalCell>, binding: &ModelBinding) -> (r: Vec<Cell>)
    ensures
        r@.len() == cells@.len(),
        forall|i: int| 0 <= i < r@.len() ==> cell_of(cells@[i], *binding, #[trigger] r@[i]),
{
    let ghost all = cells@;
    let mut r: Vec<Cell> = Vec::new();
    for c in it: cells
        invariant
            it.seq() == all,
            r@.len() == it.index(),
            forall|i: int| 0 <= i < r@.len() ==> cell_of(all[i], *binding, #[trigger] r@[i]),
    {
        r.push(flat_cell(c, binding));
    }
    r
}

impl WorkUnit {
    /// The flat model of a nested record. The one declared binding becomes the
    /// binding of the unit and of every cell.
    pub fn from_record(c: CanonicalWorkUnit, bundle: Json) -> (w: WorkUnit)
        ensures
            flattened(c, w),
            w.spmc_bundle == bundle,
            w.homogeneous(),
    {
        let binding: ModelBinding = flat_binding(c.spmc_bundle.model.binding);
        let context_pool: StrMap<ContextFragment> = flat_pool(
            &c.spmc_bundle.context_pool.fragments,
        );
        let cell_graph: Vec<Cell> = flat_cells(c.cell_graph.cells, &binding);
        let environment: Environment = match c.environment {
            Some(e) => e,
            None => {
                let mut workspace: String = c.unit_ref.clone();
                workspace.append("-ws");
                Environment { network: Vec::new(), workspace }
            },
        };
        let tool_grants = match c.tool_grants {
            Some(grants) => grants,
            None => Vec::new(),
        };
        WorkUnit {
            unit_ref: c.unit_ref,
            parent_deliverable: c.parent_deliverable,
            bundle_hash: c.bundle_hash,
            spmc_bundle: bundle,
            model_binding: binding,
            tier: c.tier,
            acceptance_class: c.acceptance_class,
            ladder_position: c.ladder_position,
            artifact_delivery: c.artifact_delivery,
            context_pool,
            cell_graph,
            environment,
            credential_grant: c.credential_grant,
            tool_grants,
        }
    }
}

impl vstd::std_specs::convert::FromSpecImpl<CanonicalWorkUnit> for WorkUnit {
    open spec fn obeys_from_spec() -> bool {
        false
    }

    open spec fn from_spec(c: CanonicalWorkUnit) -> WorkUnit {
        choose|w: WorkUnit| flattened(c, w) && w.spmc_bundle@ == JsonView::Null
    }
}

impl From<CanonicalWorkUnit> for WorkUnit {
    /// Flattens the record, without its bundle document.
    fn from(c: CanonicalWorkUnit) -> (w: Self)
        ensures
            flattened(c, w),
            w.spmc_bundle@ == JsonView::Null,
            w.homogeneous(),
    {
        WorkUnit::from_record(c, Json::Null)
    }
}

impl WorkUnit {
    /// The unit of a record together with the document that it was read from: the
    /// document's `spmc-bundle` member is kept verbatim, so that the identity of
    /// the unit can be checked against what was emitted.
    pub fn from_document(c: CanonicalWorkUnit, document: &Json) -> (w: WorkUnit)
        ensures
            flattened(c, w),
            w.homogeneous(),
            w.spmc_bundle@ == match document@.member("spmc-bundle"@) {
                Some(bundle) => bundle,
                None => JsonView::Null,
            },
    {
        let bundle: Json = match document.get("spmc-bundle") {
            Some(b) => b.clone(),
            None => Json::Null,
        };
        WorkUnit::from_record(c, bundle)
    }

    /// Admits a unit from its JSON text. `record` is what the same text decodes
    /// to: the nested record, or the message that says why it is none.
    pub fn from_canonical_json(text: &str, record: Result<CanonicalWorkUnit, String>) -> (r: Result<
        WorkUnit,
        String,
    >)
        ensures
            match (json_result(text@), record) {
                (Err(message), _) => r matches Err(e) && e@ == message,
                (Ok(_), Err(message)) => r == Err::<WorkUnit, String>(message),
                (Ok(document), Ok(c)) => r matches Ok(w) && flattened(c, w) && w.homogeneous()
                    && w.spmc_bundle@ == match document.member("spmc-bundle"@) {
                    Some(bundle) => bundle,
                    None => JsonView::Null,
                },
            },
    {
        match parse(text) {
            Ok(document) => match record {
                Ok(c) => Ok(WorkUnit::from_document(c, &document)),
                Err(message) => Err(message),
            },
            Err(message) => Err(message),
        }
    }
}

/// A unit flattened from a record wants one binding throughout: no such unit is
/// refused for its bindings.
pub proof fn law_flattened_units_are_homogeneous(c: CanonicalWorkUnit, w: WorkUnit)
    requires
        flattened(c, w),
    ensures
        w.homogeneous(),
        w.fault() != Some("inv-binding-homogeneity"@),
{
    reveal_strlit("inv-binding-homogeneity");
    reveal_strlit("inv-cross-unit-edge");
    reveal_strlit("inv-unresolved-context-ref");
    reveal_strlit("inv-cell-unexecutable");
    assert("inv-binding-homogeneity"@.len() == 23);
    assert("inv-cross-unit-edge"@.len() == 19);
    assert("inv-unresolved-context-ref"@.len() == 26);
    assert("inv-cell-unexecutable"@.len() == 21);
}

/// Flattening loses nothing that a cell declares, and adds nothing.
pub proof fn law_flattening_keeps_what_a_cell_declares(
    c: CanonicalWorkUnit,
    w: WorkUnit,
    i: int,
)
    requires
        flattened(c, w),
        0 <= i < c.cell_graph.cells@.len(),
    ensures
        w.cell_graph@.len() == c.cell_graph.cells@.len(),
        ({
            let declared = c.cell_graph.cells@[i];
            let cell = w.cell_graph@[i];
            &&& cell.cell_id@ == declared.id@
            &&& cell.depends_on@ == declared.requires@
            &&& cell.context_refs@ == declared.context_refs@
            &&& cell.schema@ == declared.schema.document@
            &&& cell.shape_language@ == declared.schema.shape_language@
            &&& declared.prompt.content@ matches JsonView::Text(prompt) ==> cell.prompt@ == prompt
            &&& declared.prompt.content@ is Null ==> cell.prompt@.len() == 0
            &&& declared.prompt.content@ is Array || declared.prompt.content@ is Object
                ==> cell.prompt@ == json_text(declared.prompt.content@)
            &&& opt_json(cell.gate) == opt_json(declared.gate)
            &&& cell.output matches Some(o) && {
                &&& o.artifact_id@ == declared.output.artifact_id@
                &&& opt_text(o.path) == opt_text(declared.output.path)
                &&& declared.output.media_type matches Some(m) ==> o.media_type@ == m@
                &&& declared.output.media_type is None ==> o.media_type@.len() == 0
            }
        }),
{
    assert(cell_of(c.cell_graph.cells@[i], w.model_binding, w.cell_graph@[i]));
}

/// A flattened unit requires what its record declares: the shape language and the
/// kind of gate of every cell, the binding, and the mode of delivery.
pub proof fn law_a_flattened_unit_requires_what_its_record_declares(
    c: CanonicalWorkUnit,
    w: WorkUnit,
    i: int,
    kind: Seq<char>,
)
    requires
        flattened(c, w),
        0 <= i < c.cell_graph.cells@.len(),
    ensures
        declares_kind(c.cell_graph.cells@[i].gate, kind) ==> w.required().contains(
            "gate:"@ + kind,
        ),
        (exists|k: int|
            0 <= k < c.cell_graph.cells@[i].schema.shape_language@.len() && !white_space(
                #[trigger] c.cell_graph.cells@[i].schema.shape_language@[k],
            )) ==> w.required().contains(
            "shape-language:"@ + c.cell_graph.cells@[i].schema.shape_language@,
        ),
        w.required().contains(
            "binding:"@ + c.spmc_bundle.model.binding.provider@ + "/"@
                + c.spmc_bundle.model.binding.model_id@ + "@"@
                + c.spmc_bundle.model.binding.quantization@,
        ),
        c.artifact_delivery is Inline ==> w.required().contains("delivery:inline"@),
        c.artifact_delivery is Repository ==> w.required().contains("delivery:repository"@),
{
    assert(cell_of(c.cell_graph.cells@[i], w.model_binding, w.cell_graph@[i]));
    law_every_cell_is_counted(w, i, kind);
    law_binding_and_delivery_are_required(w);
    if exists|k: int|
        0 <= k < c.cell_graph.cells@[i].schema.shape_language@.len() && !white_space(
            #[trigger] c.cell_graph.cells@[i].schema.shape_language@[k],
        ) {
        let k = choose|k: int|
            0 <= k < c.cell_graph.cells@[i].schema.shape_language@.len() && !white_space(
                #[trigger] c.cell_graph.cells@[i].schema.shape_language@[k],
            );
        assert(!white_space(w.cell_graph@[i].shape_language@[k]));
    }
}

/// What a record says of the unit as a whole stays as it is; what it leaves out is
/// floored: no network, a workspace named after the unit, no tools.
pub proof fn law_flattening_keeps_the_unit(c: CanonicalWorkUnit, w: WorkUnit)
    requires
        flattened(c, w),
    ensures
        w.unit_ref@ == c.unit_ref@,
        w.parent_deliverable@ == c.parent_deliverable@,
        w.bundle_hash@ == c.bundle_hash@,
        w.tier@ == c.tier@,
        w.acceptance_class == c.acceptance_class,
        w.ladder_position == c.ladder_position,
        w.artifact_delivery == c.artifact_delivery,
        w.credential_grant == c.credential_grant,
        c.environment matches Some(e) ==> w.environment == e,
        c.environment is None ==> w.environment.network@.len() == 0 && w.environment.workspace@
            == c.unit_ref@ + "-ws"@,
        c.tool_grants matches Some(g) ==> w.tool_grants@ == g@,
        c.tool_grants is None ==> w.tool_grants@.len() == 0,
{
}

/// The one declared binding is that of the unit and of every cell, with each of its
/// parameters.
pub proof fn law_flattening_keeps_the_binding(
    c: CanonicalWorkUnit,
    w: WorkUnit,
    i: int,
    name: Seq<char>,
)
    requires
        flattened(c, w),
        0 <= i < c.cell_graph.cells@.len(),
    ensures
        ({
            let b = c.spmc_bundle.model.binding;
            &&& w.model_binding.provider@ == b.provider@
            &&& w.model_binding.model@ == b.model_id@
            &&& w.model_binding.quantization@ == b.quantization@
            &&& w.model_binding.revision == b.revision
            &&& w.cell_graph@[i].binding.provider@ == b.provider@
            &&& w.cell_graph@[i].binding.model@ == b.model_id@
            &&& w.cell_graph@[i].binding.quantization@ == b.quantization@
            &&& w.cell_graph@[i].binding.params.pairs() == w.model_binding.params.pairs()
            &&& w.model_binding.params@.contains_key(name) <==> b.invocation@.contains_key(name)
            &&& b.invocation@.contains_key(name) && b.invocation@[name]@ is Text
                ==> w.model_binding.params@[name]@ == b.invocation@[name]@->Text_0
            &&& b.invocation@.contains_key(name) && b.invocation@[name]@ is Number
                ==> w.model_binding.params@[name]@ == json_text(b.invocation@[name]@)
        }),
{
    assert(cell_of(c.cell_graph.cells@[i], w.model_binding, w.cell_graph@[i]));
    let b = c.spmc_bundle.model.binding;
    assert(w.model_binding.params@.dom().contains(name) <==> b.invocation@.dom().contains(name));
    if b.invocation@.contains_key(name) {
        assert(w.model_binding.params@[name]@ == flat_text(b.invocation@[name]@));
    }
}

/// Every fragment of a record can be selected by its id, and holds its content;
/// where an id occurs twice, that of the last.
pub proof fn law_flattening_keeps_the_fragments(c: CanonicalWorkUnit, w: WorkUnit, i: int)
    requires
        flattened(c, w),
        0 <= i < c.spmc_bundle.context_pool.fragments@.len(),
    ensures
        ({
            let fragments = c.spmc_bundle.context_pool.fragments@;
            let f = fragments[i];
            &&& w.context_pool@.contains_key(f.id@)
            &&& (forall|j: int|
                i < j < fragments.len() ==> (#[trigger] fragments[j]).id@ != f.id@) ==> {
                &&& f.content@ matches JsonView::Text(text) ==> w.context_pool@[f.id@].content@
                    == text
                &&& f.content@ is Null ==> w.context_pool@[f.id@].content@.len() == 0
                &&& f.content@ is Object || f.content@ is Array
                    ==> w.context_pool@[f.id@].content@ == json_text(f.content@)
                &&& f.provenance is None ==> opt_text(w.context_pool@[f.id@].provenance)
                    == opt_text(f.role)
                &&& f.provenance matches Some(p) ==> (p@ matches JsonView::Text(text)
                    ==> opt_text(w.context_pool@[f.id@].provenance) == Some(text))
                &&& f.provenance matches Some(p) ==> (p@ is Object || p@ is Array ==> opt_text(
                    w.context_pool@[f.id@].provenance,
                ) == Some(json_text(p@)))
            }
        }),
{
    let fragments = c.spmc_bundle.context_pool.fragments@;
    assert(fragments[i].id@ == fragments[i].id@);
    assert(w.context_pool@.contains_key(fragments[i].id@));
    if forall|j: int| i < j < fragments.len() ==> (#[trigger] fragments[j]).id@ != fragments[i].id@ {
        assert(last_of_its_id(fragments, i));
        assert(fragment_of(fragments[i], w.context_pool@[fragments[i].id@]));
    }
}

/// Only what the record declares can be selected.
pub proof fn law_flattening_adds_no_fragment(c: CanonicalWorkUnit, w: WorkUnit, id: Seq<char>)
    requires
        flattened(c, w),
        w.context_pool@.contains_key(id),
    ensures
        exists|i: int|
            0 <= i < c.spmc_bundle.context_pool.fragments@.len() && (
            #[trigger] c.spmc_bundle.context_pool.fragments@[i]).id@ == id,
{
}

/// A prompt is carried as text: a string as it is, nothing as nothing, and a
/// structured one as its compact JSON.
pub proof fn law_documents_are_carried_as_text(v: JsonView, s: Seq<char>)
    ensures
        flat_text(JsonView::Text(s)) == s,
        flat_text(JsonView::Null).len() == 0,
        v is Array || v is Object || v is Number || v is Bool ==> flat_text(v) == json_text(v),
{
}

} // verus!
