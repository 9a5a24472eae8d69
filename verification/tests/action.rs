use razel_action::action::ready_to_spawn;
use razel_action::{
    ActionFn, ActionInput, ActionKey, ActionStep, ActionTemplate, ActionValue, ArtifactFn,
    ArtifactProducer, ArtifactRef, ArtifactStep, ArtifactValue, BlobStore, CompletionStep,
    ComputeResult, ConfiguredTarget, ConfiguredTargetKey, Demand, DepOutput, Digest, Error, ExecError,
    FileValue, GeneratingActionKey, InMemoryBlobStore, InputArtifact, NodeKey, NodeValue,
    OutputSelection, SameTargetOrSourceResolver, SourceRead, SpawnOutput, SpawnRequest, SpawnResult,
    StringMap, TargetCompletionFn, TargetCompletionKey,
};

// The analysis of this file: package, name and configuration, each behind its length.
fn configured(pkg: &str, name: &str, configuration: &str) -> ConfiguredTargetKey {
    let mut canonical: Vec<u8> = Vec::new();
    for s in [pkg, name, configuration] {
        canonical.extend_from_slice(&(s.len() as u64).to_be_bytes());
        canonical.extend_from_slice(s.as_bytes());
    }
    ConfiguredTargetKey { package: pkg.to_string(), name: name.to_string(), canonical }
}

fn decode_owner(bytes: &[u8]) -> Result<ConfiguredTargetKey, Error> {
    let malformed =
        || Error::Invalid { what: "CONFIGURED_TARGET key".into(), detail: "malformed".into() };
    let mut rest = bytes;
    let mut texts: Vec<String> = Vec::new();
    for _ in 0..3 {
        if rest.len() < 8 {
            return Err(malformed());
        }
        let n = u64::from_be_bytes(rest[..8].try_into().unwrap());
        if n > (rest.len() - 8) as u64 {
            return Err(malformed());
        }
        let end = 8 + n as usize;
        texts.push(String::from_utf8(rest[8..end].to_vec()).map_err(|_| malformed())?);
        rest = &rest[end..];
    }
    if !rest.is_empty() {
        return Err(malformed());
    }
    Ok(configured(&texts[0], &texts[1], &texts[2]))
}

fn strings(list: &[&str]) -> Vec<String> {
    list.iter().map(|s| s.to_string()).collect()
}

fn owner(pkg: &str, name: &str) -> ConfiguredTargetKey {
    configured(pkg, name, "")
}

fn template(mnemonic: &str, argv: &[&str], inputs: &[&str], outputs: &[&str]) -> ActionTemplate {
    ActionTemplate {
        mnemonic: mnemonic.to_string(),
        argv: strings(argv),
        env: Vec::new(),
        inputs: strings(inputs),
        outputs: strings(outputs),
    }
}

fn target(actions: Vec<ActionTemplate>) -> NodeValue {
    NodeValue::ConfiguredTarget(ConfiguredTarget { actions, dep_outputs: Vec::new() })
}

fn gak(pkg: &str, name: &str, idx: u32) -> GeneratingActionKey {
    GeneratingActionKey { owner: owner(pkg, name), action_index: idx }
}

fn source(path: &str) -> ArtifactRef {
    ArtifactRef { exec_path: path.to_string(), producer: ArtifactProducer::Source }
}

fn derived(path: &str, g: GeneratingActionKey) -> ArtifactRef {
    ArtifactRef { exec_path: path.to_string(), producer: ArtifactProducer::Derived(g) }
}

// A digest for tests: the 64 bits of FNV-1a.
fn digest_of(bytes: &[u8]) -> Digest {
    let mut h: u64 = 0xcbf2_9ce4_8422_2325;
    for b in bytes {
        h = (h ^ u64::from(*b)).wrapping_mul(0x0000_0100_0000_01b3);
    }
    Digest { hex: format!("{h:016x}") }
}

// Serves the values that it was given, and records every key that is requested.
struct MapCtx {
    served: Vec<(NodeKey, NodeValue)>,
    requested: Vec<NodeKey>,
}

impl MapCtx {
    fn new() -> MapCtx {
        MapCtx { served: Vec::new(), requested: Vec::new() }
    }

    fn serve(mut self, k: NodeKey, v: NodeValue) -> MapCtx {
        self.served.push((k, v));
        self
    }

    fn request(&mut self, key: NodeKey) -> Demand {
        let found = self.served.iter().position(|(k, _)| *k == key);
        self.requested.push(key);
        match found {
            Some(i) => Demand::Ready(self.served.remove(i).1),
            None => Demand::Missing,
        }
    }

    fn request_group(&mut self, refs: &[ArtifactRef]) -> Vec<Demand> {
        refs.iter().map(|r| self.request(NodeKey::Artifact(r.clone()))).collect()
    }
}

fn artifact_value(path: &str, digest: Digest) -> NodeValue {
    NodeValue::Artifact(ArtifactValue { exec_path: path.to_string(), digest })
}

fn req_of(mnemonic: &str, argv: &[&str], inputs: &[(&str, &[u8])], outputs: &[&str]) -> SpawnRequest {
    SpawnRequest {
        mnemonic: mnemonic.to_string(),
        argv: strings(argv),
        env: StringMap::new(),
        inputs: inputs
            .iter()
            .map(|(p, c)| InputArtifact { path: p.to_string(), content: c.to_vec() })
            .collect(),
        outputs: strings(outputs),
    }
}

// What the fake strategy writes to an output: all of the request, and the path.
fn fake_output_content(req: &SpawnRequest, path: &str) -> Vec<u8> {
    format!("{req:?} -> {path}").into_bytes()
}

type Strategy = Box<dyn Fn(&SpawnRequest) -> Result<SpawnResult, ExecError>>;

fn fake_outputs(req: &SpawnRequest) -> Vec<SpawnOutput> {
    req.outputs
        .iter()
        .map(|p| {
            let content = fake_output_content(req, p);
            let digest = digest_of(&content);
            SpawnOutput { path: p.clone(), content, digest }
        })
        .collect()
}

// Produces every declared output.
fn fake_strategy() -> Strategy {
    Box::new(|req| Ok(SpawnResult { code: 0, outputs: fake_outputs(req) }))
}

// Exits with zero and leaves one output out.
fn dropping_strategy(drop: &str) -> Strategy {
    let drop = drop.to_string();
    Box::new(move |req| {
        let mut outputs = fake_outputs(req);
        outputs.retain(|o| o.path != drop);
        Ok(SpawnResult { code: 0, outputs })
    })
}

// The check of what was produced: every declared output, and no other.
fn validate_outputs(req: &SpawnRequest, res: &SpawnResult) -> Result<(), ExecError> {
    for p in &req.outputs {
        if !res.outputs.iter().any(|o| o.path == *p) {
            return Err(ExecError::OutputNotProduced { mnemonic: req.mnemonic.clone(), path: p.clone() });
        }
    }
    for o in &res.outputs {
        if !req.outputs.contains(&o.path) {
            return Err(ExecError::Other { description: format!("undeclared output {}", o.path) });
        }
    }
    Ok(())
}

struct Exam {
    blobs: InMemoryBlobStore,
    strategy: Strategy,
}

fn exam(strategy: Strategy) -> Exam {
    Exam { blobs: InMemoryBlobStore::new(), strategy }
}

impl Exam {
    fn put(&mut self, bytes: &[u8]) -> Digest {
        let d = digest_of(bytes);
        self.blobs.put(&d, bytes);
        d
    }

    // Computes an action node.
    fn compute(&mut self, key: &[u8], ctx: &mut MapCtx) -> ComputeResult {
        let f = ActionFn;
        let mut step = f.start(key, None);
        loop {
            step = match step {
                ActionStep::NeedsOwner(frame) => f.start(key, Some(decode_owner(&frame))),
                ActionStep::NeedsTarget(k) => {
                    let d = ctx.request(NodeKey::ConfiguredTarget(k.owner.clone()));
                    f.with_target(&k, &d, &SameTargetOrSourceResolver)
                }
                ActionStep::NeedsInputs { template, refs } => {
                    let demands = ctx.request_group(&refs);
                    f.with_inputs(&template, &refs, &demands, &self.blobs)
                }
                ActionStep::NeedsSpawn { request, .. } => {
                    let outcome = (self.strategy)(&request);
                    f.with_spawn(request, outcome)
                }
                ActionStep::NeedsCheck { request, result } => {
                    let verdict = validate_outputs(&request, &result);
                    ActionStep::Done(f.with_check(&result, verdict, &mut self.blobs))
                }
                ActionStep::Done(r) => return r,
            };
        }
    }
}

fn debug_result(r: &ComputeResult) -> &'static str {
    match r {
        ComputeResult::Ready(_) => "Ready",
        ComputeResult::Missing { .. } => "Missing",
        ComputeResult::Error(_) => "Error",
    }
}

#[test]
fn action_executes_and_produces_expected_output() {
    let mut ex = exam(fake_strategy());
    let o = owner("app", "t");
    let ct = target(vec![template("Touch", &["cat", "in"], &["in"], &["out/o"])]);
    let in_digest = ex.put(b"hello");
    let mut ctx = MapCtx::new()
        .serve(NodeKey::ConfiguredTarget(o), ct)
        .serve(NodeKey::Artifact(source("in")), artifact_value("in", in_digest));
    let av = match ex.compute(&gak("app", "t", 0).encode(), &mut ctx) {
        ComputeResult::Ready(NodeValue::Action(v)) => v,
        other => panic!("action must execute and be Ready, got {:?}", debug_result(&other)),
    };
    assert_eq!(av.exit_code, 0);
    let expected_req = req_of("Touch", &["cat", "in"], &[("in", b"hello")], &["out/o"]);
    let expected = digest_of(&fake_output_content(&expected_req, "out/o"));
    assert_eq!(
        av.output("out/o").expect("declared output present").digest,
        expected,
        "the value must carry the digest of the STRATEGY's produced content over the MATERIALIZED input"
    );
    assert_eq!(
        ex.blobs.get(&expected).expect("output bytes stored"),
        fake_output_content(&expected_req, "out/o"),
        "output bytes must be stored in the BlobStore under their digest"
    );
}

#[test]
fn action_requests_owner_ct_then_input_artifacts() {
    let mut ex = exam(fake_strategy());
    let key = gak("app", "t", 0).encode();
    let mut cold = MapCtx::new();
    match ex.compute(&key, &mut cold) {
        ComputeResult::Missing { recorded_dep_keys } => {
            assert_eq!(
                recorded_dep_keys,
                vec![NodeKey::ConfiguredTarget(owner("app", "t"))],
                "the owner CT is the first edge"
            );
        }
        other => panic!("expected Missing on the CT, got {:?}", debug_result(&other)),
    }
    let ct = target(vec![template("M", &["x"], &["in"], &["o"])]);
    let mut with_ct = MapCtx::new().serve(NodeKey::ConfiguredTarget(owner("app", "t")), ct);
    match ex.compute(&key, &mut with_ct) {
        ComputeResult::Missing { recorded_dep_keys } => {
            assert_eq!(
                recorded_dep_keys,
                vec![NodeKey::Artifact(source("in"))],
                "the resolved input's ARTIFACT node is the second edge"
            );
        }
        other => panic!("expected Missing on the input group, got {:?}", debug_result(&other)),
    }
}

#[test]
fn action_index_out_of_range_fails_closed() {
    let mut ex = exam(fake_strategy());
    let ct = target(vec![template("M", &["x"], &[], &["o"])]);
    let mut ctx = MapCtx::new().serve(NodeKey::ConfiguredTarget(owner("app", "t")), ct);
    match ex.compute(&gak("app", "t", 5).encode(), &mut ctx) {
        ComputeResult::Error(Error::Invalid { .. }) => {}
        other => panic!("an out-of-range action index must fail closed, got {:?}", debug_result(&other)),
    }
}

#[test]
fn unresolvable_input_fails_closed() {
    let mut ex = exam(fake_strategy());
    let ct = target(vec![template("M", &["x"], &["/etc/passwd"], &["o"])]);
    let mut ctx = MapCtx::new().serve(NodeKey::ConfiguredTarget(owner("app", "t")), ct);
    match ex.compute(&gak("app", "t", 0).encode(), &mut ctx) {
        ComputeResult::Error(Error::Unsupported { .. }) => {}
        other => panic!("an unresolvable input form must fail closed, got {:?}", debug_result(&other)),
    }
}

#[test]
fn missing_blob_digest_fails_closed_at_the_action() {
    let mut ex = exam(fake_strategy());
    let ct = target(vec![template("M", &["x"], &["in"], &["o"])]);
    let mut ctx = MapCtx::new()
        .serve(NodeKey::ConfiguredTarget(owner("app", "t")), ct)
        .serve(NodeKey::Artifact(source("in")), artifact_value("in", digest_of(b"never stored")));
    match ex.compute(&gak("app", "t", 0).encode(), &mut ctx) {
        ComputeResult::Error(Error::NotFound { .. }) => {}
        other => panic!("a missing blob digest must fail closed, got {:?}", debug_result(&other)),
    }
}

#[test]
fn action_re_run_uses_strategy_not_a_fabricated_output() {
    let mut ex = exam(fake_strategy());
    let ct = target(vec![template("M", &["x"], &[], &["o"])]);
    let mut ctx = MapCtx::new().serve(NodeKey::ConfiguredTarget(owner("app", "t")), ct);
    let av = match ex.compute(&gak("app", "t", 0).encode(), &mut ctx) {
        ComputeResult::Ready(NodeValue::Action(v)) => v,
        other => panic!("expected Ready, got {:?}", debug_result(&other)),
    };
    let strategy_digest = digest_of(&fake_output_content(&req_of("M", &["x"], &[], &["o"]), "o"));
    assert_eq!(av.output("o").unwrap().digest, strategy_digest, "the output must come from the strategy");
    assert_ne!(
        av.output("o").unwrap().digest,
        digest_of(b"HARDCODED"),
        "the output must NOT be a fabricated/hardcoded value (the strategy must be invoked)"
    );
}

#[test]
fn missing_declared_output_is_fail_closed() {
    let mut ex = exam(dropping_strategy("out/missing"));
    let ct = target(vec![template("Touch", &["c"], &[], &["out/keep", "out/missing"])]);
    let mut ctx = MapCtx::new().serve(NodeKey::ConfiguredTarget(owner("app", "t")), ct);
    match ex.compute(&gak("app", "t", 0).encode(), &mut ctx) {
        ComputeResult::Error(Error::Invalid { .. }) => {}
        other => panic!("a missing declared output must fail closed, got {:?}", debug_result(&other)),
    }
}

#[test]
fn a_refused_spawn_stores_nothing() {
    let mut ex = exam(dropping_strategy("out/missing"));
    let ct = target(vec![template("Touch", &["c"], &[], &["out/keep", "out/missing"])]);
    let mut ctx = MapCtx::new().serve(NodeKey::ConfiguredTarget(owner("app", "t")), ct);
    let result = ex.compute(&gak("app", "t", 0).encode(), &mut ctx);
    assert_eq!(
        result,
        ComputeResult::Error(Error::Invalid {
            what: "declared action output not produced".into(),
            detail: "Touch: out/missing".into(),
        })
    );
    let kept = fake_output_content(&req_of("Touch", &["c"], &[], &["out/keep", "out/missing"]), "out/keep");
    assert!(matches!(ex.blobs.get(&digest_of(&kept)), Err(Error::NotFound { .. })));
}

#[test]
fn failures_of_a_strategy_are_mapped() {
    let f = ActionFn;
    let fails = |e: ExecError| match f.with_spawn(req_of("M", &[], &[], &[]), Err(e)) {
        ActionStep::Done(ComputeResult::Error(e)) => e,
        _ => panic!("a failed spawn must end in an error"),
    };
    assert_eq!(
        fails(ExecError::OutputNotProduced { mnemonic: "M".into(), path: "p".into() }),
        Error::Invalid { what: "declared action output not produced".into(), detail: "M: p".into() }
    );
    assert_eq!(
        fails(ExecError::MissingInput { mnemonic: "M".into(), path: "p".into() }),
        Error::InputMissing { what: "declared action input".into(), detail: "M: p".into() }
    );
    assert_eq!(
        fails(ExecError::SpawnFailed { mnemonic: "M".into(), detail: "boom".into() }),
        Error::Invalid { what: "spawn".into(), detail: "M: boom".into() }
    );
    assert_eq!(
        fails(ExecError::Unsupported { what: "remote", detail: "none".into() }),
        Error::Unsupported { what: "remote", detail: "none".into() }
    );
    assert_eq!(
        fails(ExecError::Other { description: "Later(1)".into() }),
        Error::Invalid { what: "exec".into(), detail: "Later(1)".into() }
    );
}

#[test]
fn action_failures_are_named() {
    let mut ex = exam(fake_strategy());
    let t = NodeKey::ConfiguredTarget(owner("app", "t"));
    let one = || target(vec![template("M", &["x"], &["in"], &["o"])]);
    let invalid = |what: &str, detail: &str| {
        ComputeResult::Error(Error::Invalid { what: what.into(), detail: detail.into() })
    };
    let mut ctx = MapCtx::new().serve(t.clone(), one());
    assert_eq!(
        ex.compute(&gak("app", "t", 12).encode(), &mut ctx),
        invalid("ACTION index", "//app:t declares 1 action(s); index 12 is out of range")
    );
    let mut ctx = MapCtx::new().serve(t.clone(), NodeValue::Other);
    assert_eq!(
        ex.compute(&gak("app", "t", 0).encode(), &mut ctx),
        invalid("CONFIGURED_TARGET dep", "not a ConfiguredTarget")
    );
    let mut ctx = MapCtx::new()
        .serve(t.clone(), one())
        .serve(NodeKey::Artifact(source("in")), NodeValue::File(FileValue { exists: true }));
    assert_eq!(
        ex.compute(&gak("app", "t", 0).encode(), &mut ctx),
        invalid("ARTIFACT dep", "not an ArtifactValue")
    );
    let mut ctx = MapCtx::new()
        .serve(t.clone(), one())
        .serve(NodeKey::Artifact(source("in")), artifact_value("other", digest_of(b"x")));
    assert_eq!(
        ex.compute(&gak("app", "t", 0).encode(), &mut ctx),
        invalid("ARTIFACT dep", "value path 'other' does not match the requested ref 'in'")
    );
    let absent = digest_of(b"never stored");
    let mut ctx = MapCtx::new()
        .serve(t.clone(), one())
        .serve(NodeKey::Artifact(source("in")), artifact_value("in", absent.clone()));
    assert_eq!(
        ex.compute(&gak("app", "t", 0).encode(), &mut ctx),
        ComputeResult::Error(Error::NotFound { what: "blob".into(), detail: absent.hex })
    );
    let mut ctx = MapCtx::new()
        .serve(t, target(vec![template("M", &["x"], &["a", "b/.."], &["o"])]));
    assert_eq!(
        ex.compute(&gak("app", "t", 0).encode(), &mut ctx),
        ComputeResult::Error(Error::Unsupported {
            what: "input path form",
            detail: "cannot resolve input 'b/..' of //app:t: only root-relative forward paths are supported (v1 SameTargetOrSource policy)".into(),
        })
    );
    assert_eq!(ctx.requested.len(), 1, "no input is requested once one of them is unresolvable");
}

#[test]
fn a_wrong_value_counts_before_a_missing_one() {
    let mut ex = exam(fake_strategy());
    let ct = target(vec![template("M", &["x"], &["a", "b", "c"], &["o"])]);
    let mut ctx = MapCtx::new()
        .serve(NodeKey::ConfiguredTarget(owner("app", "t")), ct)
        .serve(NodeKey::Artifact(source("b")), NodeValue::Other);
    assert!(matches!(
        ex.compute(&gak("app", "t", 0).encode(), &mut ctx),
        ComputeResult::Error(Error::Invalid { .. })
    ));
}

#[test]
fn missing_inputs_are_named_in_the_order_of_their_requests() {
    let mut ex = exam(fake_strategy());
    let d = ex.put(b"there");
    let ct = target(vec![template("M", &["x"], &["a", "b", "c"], &["o"])]);
    let mut ctx = MapCtx::new()
        .serve(NodeKey::ConfiguredTarget(owner("app", "t")), ct)
        .serve(NodeKey::Artifact(source("b")), artifact_value("b", d));
    assert_eq!(
        ex.compute(&gak("app", "t", 0).encode(), &mut ctx),
        ComputeResult::Missing {
            recorded_dep_keys: vec![NodeKey::Artifact(source("a")), NodeKey::Artifact(source("c"))],
        }
    );
}

#[test]
fn a_fingerprint_starts_no_action() {
    let mut ex = exam(fake_strategy());
    let f = ActionKey::new(
        "Compile".to_string(),
        strings(&["cc"]),
        StringMap::new(),
        vec![],
        vec![],
        strings(&["out"]),
        None,
        StringMap::new(),
    );
    let mut ctx = MapCtx::new();
    assert!(matches!(
        ex.compute(&f.encode(), &mut ctx),
        ComputeResult::Error(Error::Invalid { .. })
    ));
    assert!(ctx.requested.is_empty());
}

#[test]
fn the_spawn_is_the_declared_action_and_its_fingerprint() {
    let mut t = template("M", &["c", "b"], &["y", "x"], &["q", "p", "q"]);
    t.env = vec![("B".into(), "1".into()), ("A".into(), "2".into()), ("B".into(), "3".into())];
    let inputs = vec![
        ActionInput { path: "y".into(), content: b"Y".to_vec() },
        ActionInput { path: "x".into(), content: b"X".to_vec() },
    ];
    let env = StringMap::from_pairs(&vec![
        ("A".to_string(), "2".to_string()),
        ("B".to_string(), "3".to_string()),
    ]);
    let key = ActionKey::new(
        "M".to_string(),
        strings(&["c", "b"]),
        env.clone(),
        vec![],
        inputs.clone(),
        strings(&["p", "q"]),
        None,
        StringMap::new(),
    );
    match ready_to_spawn(&t, inputs) {
        ActionStep::NeedsSpawn { fingerprint, request } => {
            assert_eq!(fingerprint, key.encode());
            assert_eq!(request, key.to_request());
            assert_eq!(request.env, env);
            assert_eq!(request.inputs[0].path, "x");
            assert_eq!(request.inputs[1].content, b"Y".to_vec());
            assert_eq!(request.outputs, strings(&["p", "q"]));
        }
        _ => panic!("expected a spawn"),
    }
}

#[test]
fn a_derived_input_comes_from_its_producer() {
    let mut ex = exam(fake_strategy());
    let o = owner("app", "t");
    let actions = || {
        target(vec![
            template("Gen", &["gen"], &[], &["app/mid.txt"]),
            template("Pack", &["pack"], &["app/mid.txt"], &["app/out.txt"]),
        ])
    };
    let mut ctx = MapCtx::new().serve(NodeKey::ConfiguredTarget(o.clone()), actions());
    let produced = match ex.compute(&gak("app", "t", 0).encode(), &mut ctx) {
        ComputeResult::Ready(v) => v,
        other => panic!("expected Ready, got {:?}", debug_result(&other)),
    };
    let mid = derived("app/mid.txt", gak("app", "t", 0));
    let projected = match ArtifactFn.with_producer(mid.clone(), Demand::Ready(produced)) {
        ArtifactStep::Done(ComputeResult::Ready(v)) => v,
        _ => panic!("expected the projection"),
    };
    let mut ctx = MapCtx::new()
        .serve(NodeKey::ConfiguredTarget(o), actions())
        .serve(NodeKey::Artifact(mid), projected);
    let packed = match ex.compute(&gak("app", "t", 1).encode(), &mut ctx) {
        ComputeResult::Ready(NodeValue::Action(v)) => v,
        other => panic!("expected Ready, got {:?}", debug_result(&other)),
    };
    let mid_bytes = fake_output_content(&req_of("Gen", &["gen"], &[], &["app/mid.txt"]), "app/mid.txt");
    let pack = req_of("Pack", &["pack"], &[("app/mid.txt", &mid_bytes)], &["app/out.txt"]);
    assert_eq!(
        packed.output("app/out.txt").unwrap().digest,
        digest_of(&fake_output_content(&pack, "app/out.txt"))
    );
}

#[test]
fn a_dependency_output_is_requested_from_its_own_action() {
    let mut ex = exam(fake_strategy());
    let lib = configured("app", "lib", "host");
    let ct = NodeValue::ConfiguredTarget(ConfiguredTarget {
        actions: vec![template("Link", &["ld"], &["app/lib.a"], &["app/bin"])],
        dep_outputs: vec![DepOutput {
            exec_path: "app/lib.a".into(),
            producer_ct: lib.clone(),
            action_index: 7,
        }],
    });
    let mut ctx = MapCtx::new().serve(NodeKey::ConfiguredTarget(owner("app", "bin")), ct);
    let wanted = derived("app/lib.a", GeneratingActionKey { owner: lib, action_index: 7 });
    assert_eq!(
        ex.compute(&gak("app", "bin", 0).encode(), &mut ctx),
        ComputeResult::Missing { recorded_dep_keys: vec![NodeKey::Artifact(wanted)] }
    );
}

#[test]
fn outputs_are_sorted_and_the_exit_code_is_kept() {
    let out = |p: &str| SpawnOutput {
        path: p.to_string(),
        content: p.as_bytes().to_vec(),
        digest: digest_of(p.as_bytes()),
    };
    let v = ActionValue::from_spawn(&SpawnResult { code: -3, outputs: vec![out("b"), out("a")] });
    assert_eq!(v.exit_code, -3);
    assert_eq!(v.outputs.iter().map(|o| o.path.as_str()).collect::<Vec<_>>(), vec!["a", "b"]);
    let w = ActionValue::from_spawn(&SpawnResult { code: -3, outputs: vec![out("a"), out("b")] });
    assert!(v.value_eq(&NodeValue::Action(w)), "the order of production is not seen");
    assert_eq!(v.output("b").unwrap().digest, digest_of(b"b"));
    assert!(v.output("c").is_none());
}

#[test]
fn equal_outputs_have_one_value() {
    let spawned = |inputs: &[(&str, &[u8])]| {
        let r = req_of("M", &[], inputs, &[]);
        assert_eq!(r.outputs.len(), 0);
        SpawnResult {
            code: 0,
            outputs: vec![SpawnOutput {
                path: "o".to_string(),
                content: b"same".to_vec(),
                digest: digest_of(b"same"),
            }],
        }
    };
    let a = ActionValue::from_spawn(&spawned(&[("in", b"v1")]));
    let b = ActionValue::from_spawn(&spawned(&[("in", b"v2")]));
    assert!(a.value_eq(&NodeValue::Action(b)));
}

#[test]
fn the_fingerprint_tells_spawns_apart() {
    let t = template("M", &["x"], &["in"], &["o"]);
    let fingerprint = |t: &ActionTemplate, content: &[u8]| {
        let inputs = vec![ActionInput { path: "in".into(), content: content.to_vec() }];
        match ready_to_spawn(t, inputs) {
            ActionStep::NeedsSpawn { fingerprint, .. } => fingerprint,
            _ => panic!("expected a spawn"),
        }
    };
    assert_eq!(fingerprint(&t, b"v1"), fingerprint(&t, b"v1"));
    assert_ne!(fingerprint(&t, b"v1"), fingerprint(&t, b"v2"));
    assert_ne!(fingerprint(&t, b"v1"), fingerprint(&template("N", &["x"], &["in"], &["o"]), b"v1"));
    let bytes = fingerprint(&t, b"v1");
    assert_eq!(bytes[bytes.len() - 17..], [0u8; 17], "no tools, no platform, no properties");
}

#[test]
fn source_artifacts_are_what_was_read() {
    let f = ArtifactFn;
    let mut blobs = InMemoryBlobStore::new();
    let a = source("app/in.txt");
    assert_eq!(
        f.with_producer(a.clone(), Demand::Missing),
        ArtifactStep::Done(ComputeResult::Missing {
            recorded_dep_keys: vec![NodeKey::File("app/in.txt".into())],
        })
    );
    assert_eq!(
        f.with_producer(a.clone(), Demand::Ready(NodeValue::File(FileValue { exists: false }))),
        ArtifactStep::Done(ComputeResult::Error(Error::NotFound {
            what: "source artifact".into(),
            detail: "app/in.txt".into(),
        }))
    );
    assert_eq!(
        f.with_producer(a.clone(), Demand::Ready(NodeValue::Other)),
        ArtifactStep::Done(ComputeResult::Error(Error::Invalid {
            what: "FILE value".into(),
            detail: "source-artifact dep was not a FileValue".into(),
        }))
    );
    assert_eq!(
        f.with_producer(a, Demand::Ready(NodeValue::File(FileValue { exists: true }))),
        ArtifactStep::NeedsBytes("app/in.txt".into())
    );
    let outside = Error::NotFound { what: "repo".into(), detail: "r".into() };
    assert_eq!(
        f.with_bytes("p".into(), SourceRead::Unresolved(outside.clone()), &mut blobs),
        ComputeResult::Error(outside)
    );
    assert_eq!(
        f.with_bytes("p".into(), SourceRead::Unreadable("Denied".into()), &mut blobs),
        ComputeResult::Error(Error::Invalid {
            what: "read source artifact".into(),
            detail: "p: Denied".into(),
        })
    );
    let digest = digest_of(b"data");
    assert!(blobs.get(&digest).is_err(), "a failed read stores nothing");
    assert_eq!(
        f.with_bytes(
            "p".into(),
            SourceRead::Read { bytes: b"data".to_vec(), digest: digest.clone() },
            &mut blobs
        ),
        ComputeResult::Ready(artifact_value("p", digest.clone()))
    );
    assert_eq!(blobs.get(&digest).unwrap(), b"data".to_vec());
}

#[test]
fn derived_artifacts_need_an_action_value() {
    let a = derived("p", gak("app", "t", 4));
    assert_eq!(
        ArtifactFn.with_producer(a.clone(), Demand::Ready(NodeValue::Other)),
        ArtifactStep::Done(ComputeResult::Error(Error::Invalid {
            what: "ACTION dep".into(),
            detail: "not an ActionValue".into(),
        }))
    );
    let empty = NodeValue::Action(ActionValue { exit_code: 0, outputs: vec![] });
    assert_eq!(
        ArtifactFn.with_producer(a, Demand::Ready(empty)),
        ArtifactStep::Done(ComputeResult::Error(Error::Invalid {
            what: "derived artifact projection".into(),
            detail: "producer //app:t action #4 did not produce 'p'".into(),
        }))
    );
}

#[test]
fn completion_waits_for_every_artifact() {
    let f = TargetCompletionFn;
    let refs = vec![derived("p", gak("a", "t", 0)), derived("q", gak("a", "t", 1))];
    let ready = |p: &str| Demand::Ready(artifact_value(p, digest_of(b"x")));
    assert_eq!(
        f.with_artifacts(&refs, &vec![ready("p"), Demand::Missing]),
        ComputeResult::Missing { recorded_dep_keys: vec![NodeKey::Artifact(refs[1].clone())] }
    );
    assert_eq!(
        f.with_artifacts(&refs, &vec![Demand::Missing, Demand::Ready(NodeValue::Other)]),
        ComputeResult::Error(Error::Invalid {
            what: "ARTIFACT dep".into(),
            detail: "not an ArtifactValue".into(),
        })
    );
    assert!(matches!(
        f.with_artifacts(&refs, &vec![ready("p"), ready("q")]),
        ComputeResult::Ready(NodeValue::TargetCompletion(_))
    ));
    let key = TargetCompletionKey { ct: owner("a", "t"), outputs: OutputSelection::Default };
    assert_eq!(
        f.with_target(key.clone(), Demand::Ready(target(vec![]))),
        CompletionStep::NeedsArtifacts(vec![]),
        "a target without outputs needs no artifact"
    );
    assert!(matches!(
        f.with_artifacts(&vec![], &vec![]),
        ComputeResult::Ready(NodeValue::TargetCompletion(_))
    ));
    assert_eq!(
        f.with_target(key.clone(), Demand::Ready(NodeValue::Other)),
        CompletionStep::Done(ComputeResult::Error(Error::Invalid {
            what: "CONFIGURED_TARGET dep".into(),
            detail: "not a ConfiguredTarget".into(),
        }))
    );
    assert!(matches!(
        f.with_target(
            key,
            Demand::Ready(target(vec![template("M", &[], &[], &["o", "o"])]))
        ),
        CompletionStep::Done(ComputeResult::Error(Error::Conflict { .. }))
    ));
}
