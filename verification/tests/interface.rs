use kiln::hash::{bundle_hash, content_hash};
use kiln::interface::canonical::{
    CanonicalBinding, CanonicalCell, CanonicalFragment, CanonicalOutput, CanonicalPrompt,
    CanonicalSchema, CanonicalWorkUnit, CellGraph, ContextPool, ModelSection, SpmcBundle,
};
use kiln::interface::{
    url_scheme_and_host, AcceptanceClass, ArtifactDelivery, Capabilities, CapabilityManifest,
    Cell, ContextFragment, DeliveryCapability, Environment, Integration, IntegrationMethod,
    ManifestBinding, ModelBinding, Operational, ToolClass, ToolGrant, WorkUnit,
};
use kiln::json::{parse, render, Json};
use kiln::queue::{decide_admission, UnitEvent};
use kiln::sorted::StrMap;

fn number(n: i64) -> Json {
    Json::Number(serde_json::Number::from(n))
}

fn object(members: Vec<(&str, Json)>) -> Json {
    Json::object(members.into_iter().map(|m| (m.0.to_string(), m.1)).collect())
}

fn string_shape() -> Json {
    object(vec![("type", Json::text("string"))])
}

fn binding(model: &str, q: &str) -> ModelBinding {
    ModelBinding {
        provider: "local-vllm".into(),
        model: model.into(),
        revision: None,
        quantization: q.into(),
        params: StrMap::new(),
    }
}

fn exec_cell(id: &str, b: ModelBinding, deps: &[&str]) -> Cell {
    Cell {
        cell_id: id.into(),
        binding: b,
        depends_on: deps.iter().map(|s| s.to_string()).collect(),
        prompt: format!("do {id}"),
        schema: string_shape(),
        ..Default::default()
    }
}

fn unit_with(cells: Vec<Cell>, b: ModelBinding) -> WorkUnit {
    WorkUnit {
        unit_ref: "u1".into(),
        parent_deliverable: "d1".into(),
        bundle_hash: "sha256:x".into(),
        spmc_bundle: object(vec![]),
        model_binding: b,
        tier: "light".into(),
        cell_graph: cells,
        ..Default::default()
    }
}

#[test]
fn homogeneous_unit_passes() {
    let b = binding("coder", "q4_K_M");
    let u = unit_with(
        vec![exec_cell("a", b.clone(), &[]), exec_cell("b", b.clone(), &["a"])],
        b,
    );
    assert!(u.is_binding_homogeneous());
    assert_eq!(u.validate(), Ok(()));
}

#[test]
fn quantization_difference_breaks_homogeneity() {
    let u = unit_with(
        vec![exec_cell("a", binding("coder", "q8_0"), &[])],
        binding("coder", "q4_K_M"),
    );
    assert!(!u.is_binding_homogeneous());
    assert_eq!(u.validate(), Err("inv-binding-homogeneity"));
}

#[test]
fn cross_unit_requires_edge_is_rejected() {
    let b = binding("coder", "q4");
    let u = unit_with(vec![exec_cell("a", b.clone(), &["ghost"])], b);
    assert_eq!(u.validate(), Err("inv-cross-unit-edge"));
}

#[test]
fn unresolved_context_ref_is_rejected() {
    let b = binding("coder", "q4");
    let mut cell = exec_cell("a", b.clone(), &[]);
    cell.context_refs = vec!["frag-missing".into()];
    let u = unit_with(vec![cell], b);
    assert_eq!(u.validate(), Err("inv-unresolved-context-ref"));
}

#[test]
fn resolved_context_ref_passes() {
    let b = binding("coder", "q4");
    let mut cell = exec_cell("a", b.clone(), &[]);
    cell.context_refs = vec!["frag-1".into()];
    let mut u = unit_with(vec![cell], b);
    u.context_pool.insert(
        "frag-1".into(),
        ContextFragment { content: "the ADR text".into(), provenance: Some("ADR-071".into()) },
    );
    assert_eq!(u.validate(), Ok(()));
}

#[test]
fn cell_missing_prompt_or_schema_is_unexecutable() {
    let b = binding("coder", "q4");
    let mut cell = exec_cell("a", b.clone(), &[]);
    cell.prompt = "   ".into();
    let u = unit_with(vec![cell], b.clone());
    assert_eq!(u.validate(), Err("inv-cell-unexecutable"));

    let mut cell2 = exec_cell("a", b.clone(), &[]);
    cell2.schema = Json::Null;
    let u2 = unit_with(vec![cell2], b);
    assert_eq!(u2.validate(), Err("inv-cell-unexecutable"));
}

#[test]
fn the_first_broken_rule_is_the_one_reported() {
    let b = binding("coder", "q4");
    // One cell breaks three rules: the edge is checked first, the shape last.
    let mut cell = exec_cell("a", b.clone(), &["ghost"]);
    cell.context_refs = vec!["frag-missing".into()];
    cell.prompt = String::new();
    let u = unit_with(vec![cell.clone()], b.clone());
    assert_eq!(u.validate(), Err("inv-cross-unit-edge"));
    cell.depends_on = vec![];
    let u = unit_with(vec![cell.clone()], b.clone());
    assert_eq!(u.validate(), Err("inv-unresolved-context-ref"));
    // A binding that differs comes before anything else.
    let u = unit_with(vec![cell], binding("coder", "q8"));
    assert_eq!(u.validate(), Err("inv-binding-homogeneity"));
}

#[test]
fn the_rules_are_checked_in_their_order_over_all_cells() {
    let b = binding("coder", "q4");
    let mut blank = exec_cell("a", b.clone(), &[]);
    blank.prompt = "   ".into();
    let mut dangling = exec_cell("c", b.clone(), &[]);
    dangling.context_refs = vec!["frag-missing".into()];
    let leaving = exec_cell("b", b.clone(), &["ghost"]);
    let u = unit_with(vec![blank.clone(), leaving.clone()], b.clone());
    assert_eq!(u.validate(), Err("inv-cross-unit-edge"));
    let u = unit_with(vec![blank.clone(), dangling.clone()], b.clone());
    assert_eq!(u.validate(), Err("inv-unresolved-context-ref"));
    let u = unit_with(vec![blank, dangling, leaving], b);
    assert_eq!(u.validate(), Err("inv-cross-unit-edge"));
}

#[test]
fn admission_enqueues_or_names_the_rule() {
    let b = binding("coder", "q4");
    let good = unit_with(vec![exec_cell("a", b.clone(), &[])], b.clone());
    assert_eq!(decide_admission(&good), Ok(vec![UnitEvent::Enqueued]));
    let bad = unit_with(vec![exec_cell("a", b.clone(), &["ghost"])], b);
    assert_eq!(decide_admission(&bad), Err("inv-cross-unit-edge"));
}

#[test]
fn a_key_names_provider_model_quantization_and_parameters() {
    let mut b = binding("coder", "fp8");
    b.params.insert("top_k".into(), "5".into());
    b.params.insert("temperature".into(), "0".into());
    assert_eq!(b.key(), "local-vllm/coder@fp8[temperature=0,top_k=5]");
    assert_eq!(b.capability_id(), "binding:local-vllm/coder@fp8");
    assert_eq!(b.clone().key(), b.key());
    assert_eq!(binding("m", "q").key(), "local-vllm/m@q[]");
    // The revision is no part of either.
    let mut pinned = b.clone();
    pinned.revision = Some("r2".into());
    assert_eq!(pinned.key(), b.key());
    assert_eq!(pinned.capability_id(), b.capability_id());
}

#[test]
fn bundle_hash_is_stable_and_prefixed() {
    let bundle = object(vec![("a", number(1)), ("b", number(2))]);
    let h = bundle_hash(&bundle);
    assert!(h.starts_with("sha256:"));
    assert_eq!(h, bundle_hash(&object(vec![("a", number(1)), ("b", number(2))])));
    assert_eq!(h, "sha256:43258cff783fe7036d8a43033f830adfc60ec037382473548ac742b888292777");
}

#[test]
fn content_hash_is_stable() {
    assert_eq!(content_hash(b"hello"), content_hash(b"hello"));
    assert!(content_hash(b"hello").starts_with("sha256:"));
    assert_eq!(
        content_hash(b"hello"),
        "sha256:2cf24dba5fb0a30e26e83b2ac5b9e29e1b161e5c1fa7425e73043362938b9824"
    );
    assert_eq!(
        content_hash(b""),
        "sha256:e3b0c44298fc1c149afbf4c8996fb92427ae41e4649b934ca495991b7852b855"
    );
}

#[test]
fn url_scheme_and_host_classifies_repositories() {
    assert_eq!(url_scheme_and_host("file:///srv/repo.git"), ("file".into(), None));
    assert_eq!(
        url_scheme_and_host("https://github.com/acme/widget.git"),
        ("https".into(), Some("github.com".into()))
    );
    assert_eq!(
        url_scheme_and_host("ssh://git@gitlab.example/acme/widget.git"),
        ("ssh".into(), Some("git@gitlab.example".into()))
    );
    assert_eq!(
        url_scheme_and_host("git@github.com:acme/widget.git"),
        ("ssh".into(), Some("github.com".into()))
    );
}

#[test]
fn url_scheme_and_host_at_the_edges() {
    assert_eq!(url_scheme_and_host("http://h:81/x"), ("https".into(), Some("h".into())));
    assert_eq!(url_scheme_and_host("git://h/x"), ("git".into(), Some("h".into())));
    assert_eq!(url_scheme_and_host("https:///x"), ("https".into(), None));
    assert_eq!(url_scheme_and_host("/srv/repo"), ("file".into(), None));
    assert_eq!(url_scheme_and_host("host:path"), ("file".into(), None));
    assert_eq!(url_scheme_and_host(""), ("file".into(), None));
}

#[test]
fn requirements_derive_from_the_unit_itself() {
    let b = binding("coder", "fp8");
    let mut cell = exec_cell("a", b.clone(), &[]);
    cell.shape_language = "JSON Schema".into();
    cell.gate = Some(object(vec![("kind", Json::text("command"))]));
    let mut u = unit_with(vec![cell], b);
    u.artifact_delivery = ArtifactDelivery::Repository {
        url: "https://github.com/acme/widget.git".into(),
        base_ref: "main".into(),
        integration: Integration {
            method: IntegrationMethod::PullRequest,
            target_ref: "main".into(),
            branch_name: "kiln/a".into(),
        },
    };
    let req = u.requirements();
    assert!(req.contains("binding:local-vllm/coder@fp8"));
    assert!(req.contains("delivery:repository"));
    assert!(req.contains("url-scheme:https"));
    assert!(req.contains("integration:pull-request"));
    assert!(req.contains("forge:github.com"));
    assert!(req.contains("shape-language:JSON Schema"));
    assert!(req.contains("gate:command"));
    assert_eq!(req.len(), 7);
}

#[test]
fn blank_languages_and_untyped_gates_require_nothing() {
    let b = binding("coder", "fp8");
    let mut a = exec_cell("a", b.clone(), &[]);
    a.shape_language = "  ".into();
    a.gate = Some(object(vec![("kind", number(1))]));
    let mut c = exec_cell("c", b.clone(), &[]);
    c.gate = Some(Json::Null);
    let u = unit_with(vec![a, c], b);
    let req = u.requirements();
    assert_eq!(req.len(), 2);
    assert_eq!(req.item(0), "binding:local-vllm/coder@fp8");
    assert_eq!(req.item(1), "delivery:inline");
}

fn serving_manifest() -> CapabilityManifest {
    CapabilityManifest {
        executor_id: "box-1".into(),
        emitted_at: "t0".into(),
        capabilities: Capabilities {
            bindings: vec![ManifestBinding {
                provider: "local-vllm".into(),
                model_id: "coder".into(),
                revision: None,
                quantization: "fp8".into(),
            }],
            delivery: DeliveryCapability { modes: vec!["inline".into()], ..Default::default() },
            shape_languages: vec![],
            gate_kinds: vec![],
        },
        operational: None,
    }
}

#[test]
fn manifest_covers_a_unit_or_names_the_distance() {
    let b = binding("coder", "fp8");
    let u = unit_with(vec![exec_cell("a", b.clone(), &[])], b);
    let m = serving_manifest();
    assert!(m.covers(&u), "distance was {:?}", m.missing_for(&u));

    let mut m2 = m.clone();
    m2.capabilities.bindings.clear();
    assert_eq!(m2.missing_for(&u), vec!["binding:local-vllm/coder@fp8".to_string()]);
    assert!(!m2.covers(&u));
}

#[test]
fn the_distance_comes_in_order_and_ignores_routing_hints() {
    let b = binding("coder", "q4");
    let mut cell = exec_cell("a", b.clone(), &[]);
    cell.shape_language = "SHACL".into();
    cell.gate = Some(object(vec![("kind", Json::text("command"))]));
    let u = unit_with(vec![cell], b);
    let mut m = serving_manifest();
    let expected = vec![
        "binding:local-vllm/coder@q4".to_string(),
        "gate:command".to_string(),
        "shape-language:SHACL".to_string(),
    ];
    assert_eq!(m.missing_for(&u), expected);
    m.operational = Some(Operational {
        mode: Some("Off".into()),
        queue_depth: Some(99),
        capacity: Some(0),
    });
    assert_eq!(m.missing_for(&u), expected);
    // More capabilities only shorten it.
    m.capabilities.gate_kinds.push("command".into());
    assert_eq!(
        m.missing_for(&u),
        vec!["binding:local-vllm/coder@q4".to_string(), "shape-language:SHACL".to_string()]
    );
}

#[test]
fn the_capabilities_of_a_box_are_prefixed() {
    let mut m = serving_manifest();
    m.capabilities.delivery.url_schemes = vec!["file".into()];
    m.capabilities.delivery.integration_methods = vec!["push-branch".into()];
    m.capabilities.delivery.forges = vec!["github.com".into()];
    m.capabilities.shape_languages = vec!["prose".into()];
    m.capabilities.gate_kinds = vec!["command".into()];
    let ids = m.capability_ids();
    let listed: Vec<String> = (0..ids.len()).map(|i| ids.item(i).clone()).collect();
    assert_eq!(
        listed,
        vec![
            "binding:local-vllm/coder@fp8",
            "delivery:inline",
            "forge:github.com",
            "gate:command",
            "integration:push-branch",
            "shape-language:prose",
            "url-scheme:file",
        ]
    );
}

const CANONICAL_UNIT: &str = r#"{
      "unit-ref": "wu-1",
      "parent-deliverable": "dl-1",
      "bundle-hash": "sha256:abc123",
      "tier": "constrained-implementer",
      "acceptance-class": "needs-verdict",
      "ladder-position": 0,
      "artifact-delivery": { "mode": "inline" },
      "spmc-bundle": {
        "model": {
          "capability-tag": "constrained-implementer",
          "binding": {
            "provider": "example-endpoint",
            "model-id": "coder-m",
            "quantization": "fp8",
            "invocation": { "temperature": 0 }
          }
        },
        "context-pool": {
          "bundle-form-profile": "n-quads-canonical",
          "fragments": [
            { "id": "frag-a", "role": "constraint", "content": "refund_total <= paid_total" }
          ]
        }
      },
      "cell-graph": {
        "cells": [
          {
            "id": "c-test",
            "requires": [],
            "schema": { "shape-language": "JSON Schema", "document": { "type": "object" } },
            "prompt": { "content": "Write failing tests." },
            "context-refs": ["frag-a"],
            "output": { "artifact-id": "art-tests", "media-type": "text/x-rust" }
          },
          {
            "id": "c-impl",
            "requires": ["c-test"],
            "schema": { "shape-language": "JSON Schema", "document": { "type": "object" } },
            "prompt": { "content": "Make them pass." },
            "context-refs": ["frag-a"],
            "output": { "artifact-id": "art-impl", "media-type": "text/x-rust" }
          }
        ]
      }
    }"#;

fn text_in(v: &serde_json::Value, key: &str) -> String {
    v[key].as_str().unwrap().to_string()
}

fn optional_text_in(v: &serde_json::Value, key: &str) -> Option<String> {
    v[key].as_str().map(|s| s.to_string())
}

fn texts_in(v: &serde_json::Value, key: &str) -> Vec<String> {
    v[key].as_array().unwrap().iter().map(|s| s.as_str().unwrap().to_string()).collect()
}

fn document_in(v: &serde_json::Value, key: &str) -> Json {
    parse(&v[key].to_string()).unwrap()
}

/// Decodes the record of a unit, field by field.
fn decode(text: &str) -> CanonicalWorkUnit {
    let raw: serde_json::Value = serde_json::from_str(text).unwrap();
    let bundle = &raw["spmc-bundle"];
    let b = &bundle["model"]["binding"];
    let mut invocation = StrMap::new();
    for (k, v) in b["invocation"].as_object().unwrap() {
        invocation.insert(k.clone(), parse(&v.to_string()).unwrap());
    }
    let fragments = bundle["context-pool"]["fragments"]
        .as_array()
        .unwrap()
        .iter()
        .map(|f| CanonicalFragment {
            id: text_in(f, "id"),
            media_type: optional_text_in(f, "media-type"),
            role: optional_text_in(f, "role"),
            content: document_in(f, "content"),
            provenance: None,
        })
        .collect();
    let cells = raw["cell-graph"]["cells"]
        .as_array()
        .unwrap()
        .iter()
        .map(|c| CanonicalCell {
            id: text_in(c, "id"),
            requires: texts_in(c, "requires"),
            schema: CanonicalSchema {
                shape_language: text_in(&c["schema"], "shape-language"),
                shape_version: None,
                document: document_in(&c["schema"], "document"),
            },
            prompt: CanonicalPrompt {
                content: document_in(&c["prompt"], "content"),
                prompt_version: None,
            },
            context_refs: texts_in(c, "context-refs"),
            output: CanonicalOutput {
                artifact_id: text_in(&c["output"], "artifact-id"),
                media_type: optional_text_in(&c["output"], "media-type"),
                path: optional_text_in(&c["output"], "path"),
                description: None,
            },
            gate: None,
        })
        .collect();
    assert_eq!(raw["acceptance-class"], "needs-verdict");
    assert_eq!(raw["artifact-delivery"]["mode"], "inline");
    CanonicalWorkUnit {
        unit_ref: text_in(&raw, "unit-ref"),
        parent_deliverable: text_in(&raw, "parent-deliverable"),
        bundle_hash: text_in(&raw, "bundle-hash"),
        tier: text_in(&raw, "tier"),
        acceptance_class: AcceptanceClass::NeedsVerdict,
        ladder_position: raw["ladder-position"].as_u64().unwrap() as u32,
        artifact_delivery: ArtifactDelivery::Inline,
        spmc_bundle: SpmcBundle {
            model: ModelSection {
                capability_tag: optional_text_in(&bundle["model"], "capability-tag"),
                binding: CanonicalBinding {
                    provider: text_in(b, "provider"),
                    model_id: text_in(b, "model-id"),
                    revision: optional_text_in(b, "revision"),
                    architecture: None,
                    quantization: text_in(b, "quantization"),
                    invocation,
                },
            },
            context_pool: ContextPool {
                bundle_form_profile: optional_text_in(
                    &bundle["context-pool"],
                    "bundle-form-profile",
                ),
                fragments,
            },
        },
        cell_graph: CellGraph { cells },
        environment: None,
        credential_grant: None,
        tool_grants: None,
    }
}

#[test]
fn admits_canonical_contract_json() {
    let u = WorkUnit::from_canonical_json(CANONICAL_UNIT, Ok(decode(CANONICAL_UNIT)))
        .expect("parses canonical JSON");

    assert_eq!(u.unit_ref, "wu-1");
    assert_eq!(u.parent_deliverable, "dl-1");
    assert_eq!(u.bundle_hash, "sha256:abc123");
    assert_eq!(u.tier, "constrained-implementer");
    assert_eq!(u.acceptance_class, AcceptanceClass::NeedsVerdict);

    assert_eq!(u.model_binding.model, "coder-m");
    assert_eq!(u.model_binding.quantization, "fp8");
    assert_eq!(u.model_binding.params.get("temperature").map(String::as_str), Some("0"));

    assert!(u.context_pool.contains_key("frag-a"));

    assert_eq!(u.cell_graph.len(), 2);
    assert_eq!(u.cell_graph[1].cell_id, "c-impl");
    assert_eq!(u.cell_graph[1].depends_on, vec!["c-test".to_string()]);
    assert_eq!(u.cell_graph[0].prompt, "Write failing tests.");
    assert_eq!(u.cell_graph[0].output.as_ref().unwrap().artifact_id, "art-tests");

    assert!(u.is_binding_homogeneous());
    assert_eq!(u.validate(), Ok(()));

    assert!(u.spmc_bundle.get("model").is_some());
}

#[test]
fn the_record_is_flattened_with_its_floors() {
    let mut record = decode(CANONICAL_UNIT);
    record.spmc_bundle.context_pool.fragments.push(CanonicalFragment {
        id: "frag-a".into(),
        media_type: None,
        role: Some("later".into()),
        content: object(vec![("k", number(1))]),
        provenance: Some(Json::text("ADR-1")),
    });
    record.cell_graph.cells[0].output.media_type = None;
    record.cell_graph.cells[0].output.path = Some("src/t.rs".into());
    record.cell_graph.cells[1].prompt.content =
        Json::Array(vec![object(vec![("role", Json::text("user"))])]);
    let u = WorkUnit::from(record.clone());
    assert_eq!(u.spmc_bundle, Json::Null);
    // The later fragment of an id stands; what is no string is its JSON text.
    let f = u.context_pool.get("frag-a").unwrap();
    assert_eq!(f.content, "{\"k\":1}");
    assert_eq!(f.provenance.as_deref(), Some("ADR-1"));
    assert_eq!(u.cell_graph[1].prompt, "[{\"role\":\"user\"}]");
    let out = u.cell_graph[0].output.as_ref().unwrap();
    assert_eq!(out.media_type, "");
    assert_eq!(out.path.as_deref(), Some("src/t.rs"));
    // What the record does not declare falls to its floor.
    assert_eq!(u.environment, Environment { network: vec![], workspace: "wu-1-ws".into() });
    assert_eq!(u.credential_grant, None);
    assert!(u.tool_grants.is_empty());
    // What it does declare is kept.
    record.environment =
        Some(Environment { network: vec!["db".into()], workspace: "w".into() });
    record.tool_grants = Some(vec![ToolGrant { name: "fs".into(), class: ToolClass::Effect }]);
    let u = WorkUnit::from(record);
    assert_eq!(u.environment.workspace, "w");
    assert_eq!(u.tool_grants.len(), 1);
    assert!(u.is_binding_homogeneous());
}

#[test]
fn a_text_that_is_no_unit_is_refused_with_the_reason() {
    assert_eq!(
        WorkUnit::from_canonical_json("{", Ok(decode(CANONICAL_UNIT))),
        Err("EOF while parsing an object at line 1 column 1".to_string())
    );
    assert_eq!(
        WorkUnit::from_canonical_json("{}", Err("missing field `unit-ref`".to_string())),
        Err("missing field `unit-ref`".to_string())
    );
    // A document without a bundle leaves none behind.
    let u = WorkUnit::from_canonical_json("{}", Ok(decode(CANONICAL_UNIT))).unwrap();
    assert_eq!(u.spmc_bundle, Json::Null);
}

#[test]
fn json_is_read_and_written() {
    let v = parse("{\"b\": [true, null, \"x\", -2], \"a\": {\"k\": 1.5}}").unwrap();
    assert_eq!(render(&v), "{\"a\":{\"k\":1.5},\"b\":[true,null,\"x\",-2]}");
    assert_eq!(v.get("b").unwrap().at(2).unwrap().as_str(), Some("x"));
    assert!(v.get("b").unwrap().at(1).unwrap().is_null());
    assert!(v.get("b").unwrap().at(4).is_none());
    assert!(v.get("c").is_none());
    assert!(v.at(0).is_none());
    assert_eq!(v.clone(), v);
    assert_eq!(render(&Json::integer(-7)), "-7");
    // Where a name occurs twice, the later member stands.
    let twice = object(vec![("a", number(1)), ("a", number(2))]);
    assert_eq!(twice.get("a"), Some(&number(2)));
    assert_eq!(render(&twice), "{\"a\":2}");
}

#[test]
fn a_box_that_declares_nothing_covers_nothing() {
    let b = binding("coder", "fp8");
    let u = unit_with(vec![], b);
    let mut m = serving_manifest();
    m.capabilities = Capabilities::default();
    assert!(m.capability_ids().is_empty());
    assert_eq!(
        m.missing_for(&u),
        vec!["binding:local-vllm/coder@fp8".to_string(), "delivery:inline".to_string()]
    );
}

#[test]
fn documents_are_compared_by_what_they_hold() {
    let ab = object(vec![("a", number(1)), ("b", number(2))]);
    assert_eq!(ab, object(vec![("b", number(2)), ("a", number(1))]));
    // Of members with one name the last stands.
    assert_eq!(ab, object(vec![("a", number(9)), ("b", number(2)), ("a", number(1))]));
    assert_ne!(ab, object(vec![("a", number(1))]));
    assert_ne!(object(vec![("a", number(1))]), ab);
    assert_ne!(ab, object(vec![("a", number(2)), ("b", number(1))]));
    let list = |items: Vec<Json>| Json::Array(items);
    assert_eq!(list(vec![ab.clone(), Json::Null]), list(vec![ab.clone(), Json::Null]));
    assert_ne!(list(vec![Json::Null, ab.clone()]), list(vec![ab.clone(), Json::Null]));
    assert_ne!(list(vec![]), list(vec![Json::Null]));
    assert_ne!(Json::text("1"), number(1));
    assert_ne!(Json::truth(true), Json::truth(false));
    let deep = |x: i64| object(vec![("o", object(vec![("x", number(x)), ("y", Json::Null)]))]);
    assert_eq!(deep(3), object(vec![("o", object(vec![("y", Json::Null), ("x", number(3))]))]));
    assert_ne!(deep(3), deep(4));
}
