//! The nested record that a unit arrives as. It is only ever read: the
//! executor's own model is [`WorkUnit`](crate::interface::WorkUnit).
use vstd::prelude::*;

use crate::interface::{AcceptanceClass, ArtifactDelivery, Environment, ToolGrant};
use crate::json::Json;
use crate::sorted::StrMap;

verus! {

#[derive(Clone, Debug)]
pub struct CanonicalWorkUnit {
    pub unit_ref: String,
    pub parent_deliverable: String,
    pub bundle_hash: String,
    pub tier: String,
    pub acceptance_class: AcceptanceClass,
    pub ladder_position: u32,
    pub artifact_delivery: ArtifactDelivery,
    pub spmc_bundle: SpmcBundle,
    pub cell_graph: CellGraph,
    /// The three below ride outside the closed envelope, where a producer carries them.
    pub environment: Option<Environment>,
    pub credential_grant: Option<String>,
    pub tool_grants: Option<Vec<ToolGrant>>,
}

#[derive(Clone, Debug)]
pub struct SpmcBundle {
    pub model: ModelSection,
    pub context_pool: ContextPool,
}

#[derive(Clone, Debug)]
pub struct ModelSection {
    pub capability_tag: Option<String>,
    pub binding: CanonicalBinding,
}

#[derive(Clone, Debug)]
pub struct CanonicalBinding {
    pub provider: String,
    pub model_id: String,
    pub revision: Option<String>,
    pub architecture: Option<String>,
    pub quantization: String,
    pub invocation: StrMap<Json>,
}

#[derive(Clone, Debug)]
pub struct ContextPool {
    pub bundle_form_profile: Option<String>,
    pub fragments: Vec<CanonicalFragment>,
}

#[derive(Clone, Debug)]
pub struct CanonicalFragment {
    pub id: String,
    pub media_type: Option<String>,
    pub role: Option<String>,
    pub content: Json,
    pub provenance: Option<Json>,
}

#[derive(Clone, Debug)]
pub struct CellGraph {
    pub cells: Vec<CanonicalCell>,
}

#[derive(Clone, Debug)]
pub struct CanonicalCell {
    pub id: String,
    pub requires: Vec<String>,
    pub schema: CanonicalSchema,
    pub prompt: CanonicalPrompt,
    pub context_refs: Vec<String>,
    pub output: CanonicalOutput,
    pub gate: Option<Json>,
}

#[derive(Clone, Debug)]
pub struct CanonicalSchema {
    pub shape_language: String,
    pub shape_version: Option<String>,
    pub document: Json,
}

#[derive(Clone, Debug)]
pub struct CanonicalPrompt {
    /// Prompt text or a structured message array.
    pub content: Json,
    pub prompt_version: Option<String>,
}

#[derive(Clone, Debug)]
pub struct CanonicalOutput {
    pub artifact_id: String,
    pub media_type: Option<String>,
    pub path: Option<String>,
    pub description: Option<String>,
}

} // verus!
