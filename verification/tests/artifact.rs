use razel_action::{
    decode_artifact_ref, decode_generating_action_key, decode_target_completion_key, derived_outputs,
    ActionInput, ActionKey, ActionTemplate, ActionValue, ArtifactFn, ArtifactProducer, ArtifactRef,
    ArtifactStep, ArtifactValue, BlobStore, CompletionStep, ComputeResult, ConfiguredTarget,
    ConfiguredTargetKey, Demand, DepOutput, Digest, Error, GeneratingActionKey, Halt,
    InMemoryBlobStore, InputResolver, NodeKey, NodeValue, OutputDigest, OutputSelection, OwnerAnswer,
    SameTargetOrSourceResolver, SourceRead, StringMap, TargetCompletionFn, TargetCompletionKey,
};

// The analysis of this file: package, name and configuration, each behind its length.
fn configured(pkg: &str, name: &str, configuration: &str) -> ConfiguredTargetKey {
    let mut canonical: Vec<u8> = Vec::new();
    for s in [pkg, name, configuration] {
        canonical.extend_from_slice(&(s.len() as u64).to_be_bytes());
        canonical.extend_from_slice(s.as_bytes());
    }
    ConfiguredTargetKey { package: pkg.to_string(), name: name.to_string(), canonical }
}

fn decode_owner(bytes: &[u8]) -> Result<ConfiguredTargetKey, Error> {
    let malformed =
        || Error::Invalid { what: "CONFIGURED_TARGET key".into(), detail: "malformed".into() };
    let mut rest = bytes;
    let mut texts: Vec<String> = Vec::new();
    for _ in 0..3 {
        if rest.len() < 8 {
            return Err(malformed());
        }
        let n = u64::from_be_bytes(rest[..8].try_into().unwrap());
        if n > (rest.len() - 8) as u64 {
            return Err(malformed());
        }
        let end = 8 + n as usize;
        texts.push(String::from_utf8(rest[8..end].to_vec()).map_err(|_| malformed())?);
        rest = &rest[end..];
    }
    if !rest.is_empty() {
        return Err(malformed());
    }
    Ok(configured(&texts[0], &texts[1], &texts[2]))
}

fn strings(list: &[&str]) -> Vec<String> {
    list.iter().map(|s| s.to_string()).collect()
}

fn owner(pkg: &str, name: &str) -> ConfiguredTargetKey {
    configured(pkg, name, "")
}

fn tmpl(mnemonic: &str, inputs: &[&str], outputs: &[&str]) -> ActionTemplate {
    ActionTemplate {
        mnemonic: mnemonic.to_string(),
        argv: strings(&["x"]),
        env: Vec::new(),
        inputs: strings(inputs),
        outputs: strings(outputs),
    }
}

fn ct(actions: Vec<ActionTemplate>) -> ConfiguredTarget {
    ConfiguredTarget { actions, dep_outputs: Vec::new() }
}

fn gak(pkg: &str, name: &str, idx: u32) -> GeneratingActionKey {
    GeneratingActionKey { owner: owner(pkg, name), action_index: idx }
}

fn source(path: &str) -> ArtifactRef {
    ArtifactRef { exec_path: path.to_string(), producer: ArtifactProducer::Source }
}

fn derived(path: &str, g: GeneratingActionKey) -> ArtifactRef {
    ArtifactRef { exec_path: path.to_string(), producer: ArtifactProducer::Derived(g) }
}

// Decodes with the answer of the analysis wherever a decoder asks for it.
fn answered<K>(decode: impl Fn(OwnerAnswer) -> Result<K, Halt>) -> Result<K, Error> {
    match decode(None) {
        Ok(k) => Ok(k),
        Err(Halt::Failed(e)) => Err(e),
        Err(Halt::NeedsOwner(frame)) => match decode(Some(decode_owner(&frame))) {
            Ok(k) => Ok(k),
            Err(Halt::Failed(e)) => Err(e),
            Err(Halt::NeedsOwner(_)) => panic!("an answered decoder must not ask again"),
        },
    }
}

fn action_key(bytes: &[u8]) -> Result<GeneratingActionKey, Error> {
    answered(|a| decode_generating_action_key(bytes, a))
}

fn artifact_ref(bytes: &[u8]) -> Result<ArtifactRef, Error> {
    answered(|a| decode_artifact_ref(bytes, a))
}

fn completion_key(bytes: &[u8]) -> Result<TargetCompletionKey, Error> {
    answered(|a| decode_target_completion_key(bytes, a))
}

// A digest for tests: the 64 bits of FNV-1a.
fn digest_of(bytes: &[u8]) -> Digest {
    let mut h: u64 = 0xcbf2_9ce4_8422_2325;
    for b in bytes {
        h = (h ^ u64::from(*b)).wrapping_mul(0x0000_0100_0000_01b3);
    }
    Digest { hex: format!("{h:016x}") }
}

// Serves the values that it was given, and records every key that is requested.
struct MapCtx {
    served: Vec<(NodeKey, NodeValue)>,
    requested: Vec<NodeKey>,
}

impl MapCtx {
    fn new() -> MapCtx {
        MapCtx { served: Vec::new(), requested: Vec::new() }
    }

    fn serve(mut self, k: NodeKey, v: NodeValue) -> MapCtx {
        self.served.push((k, v));
        self
    }

    fn request(&mut self, key: NodeKey) -> Demand {
        let found = self.served.iter().position(|(k, _)| *k == key);
        self.requested.push(key);
        match found {
            Some(i) => Demand::Ready(self.served.remove(i).1),
            None => Demand::Missing,
        }
    }

    fn request_group(&mut self, refs: &[ArtifactRef]) -> Vec<Demand> {
        refs.iter().map(|r| self.request(NodeKey::Artifact(r.clone()))).collect()
    }
}

// Computes an artifact node whose files cannot be read.
fn compute_artifact(key: &[u8], ctx: &mut MapCtx) -> ComputeResult {
    let f = ArtifactFn;
    let mut blobs = InMemoryBlobStore::new();
    let mut step = f.start(key, None);
    loop {
        step = match step {
            ArtifactStep::NeedsOwner(frame) => f.start(key, Some(decode_owner(&frame))),
            ArtifactStep::NeedsProducer(a) => {
                let d = ctx.request(a.producer_key());
                f.with_producer(a, d)
            }
            ArtifactStep::NeedsBytes(path) => ArtifactStep::Done(f.with_bytes(
                path,
                SourceRead::Unreadable("NotFound".to_string()),
                &mut blobs,
            )),
            ArtifactStep::Done(r) => return r,
        };
    }
}

// Computes a completion node.
fn compute_completion(key: &[u8], ctx: &mut MapCtx) -> ComputeResult {
    let f = TargetCompletionFn;
    let mut step = f.start(key, None);
    loop {
        step = match step {
            CompletionStep::NeedsOwner(frame) => f.start(key, Some(decode_owner(&frame))),
            CompletionStep::NeedsTarget(k) => {
                let d = ctx.request(NodeKey::ConfiguredTarget(k.ct.clone()));
                f.with_target(k, d)
            }
            CompletionStep::NeedsArtifacts(refs) => {
                let demands = ctx.request_group(&refs);
                CompletionStep::Done(f.with_artifacts(&refs, &demands))
            }
            CompletionStep::Done(r) => return r,
        };
    }
}

#[test]
fn artifact_generating_action_key_round_trips() {
    let k = GeneratingActionKey { owner: configured("app/sub", "t", "opt"), action_index: 3 };
    let decoded = action_key(&k.encode()).expect("well-formed key decodes");
    assert_eq!(decoded, k, "decode(encode(k)) == k");
    assert_eq!(decoded.encode(), k.encode(), "re-encode is byte-identical");
}

#[test]
fn artifact_artifact_ref_round_trips() {
    let src = source("app/in.txt");
    assert_eq!(artifact_ref(&src.encode()).unwrap(), src, "Source ref round-trips");
    let der = derived("app/out.txt", gak("app", "t", 1));
    assert_eq!(artifact_ref(&der.encode()).unwrap(), der, "Derived ref round-trips");
    let other_owner = derived("app/out.txt", gak("app", "u", 1));
    assert_ne!(der.encode(), other_owner.encode(), "the producer is identity-bearing");
    assert_ne!(
        der.encode(),
        source("app/out.txt").encode(),
        "Source vs Derived at one path are distinct keys"
    );
    assert_ne!(der.encode(), src.encode(), "Source vs Derived at one path are distinct keys");
}

#[test]
fn artifact_target_completion_key_round_trips() {
    let k = TargetCompletionKey { ct: owner("app", "t"), outputs: OutputSelection::Default };
    let decoded = completion_key(&k.encode()).expect("well-formed key decodes");
    assert_eq!(decoded, k);
    assert_eq!(decoded.encode(), k.encode());
}

#[test]
fn artifact_new_key_codecs_fail_closed() {
    let good = gak("app", "t", 0).encode();
    for cut in 0..good.len() {
        assert!(
            matches!(action_key(&good[..cut]), Err(Error::Invalid { .. })),
            "ACTION key truncated at {cut} must fail closed"
        );
    }
    let mut trailing = good.clone();
    trailing.push(0);
    assert!(matches!(action_key(&trailing), Err(Error::Invalid { .. })));
    let mut art = source("p").encode();
    art.push(0);
    assert!(matches!(artifact_ref(&art), Err(Error::Invalid { .. })));
    let mut tc = TargetCompletionKey { ct: owner("a", "t"), outputs: OutputSelection::Default }.encode();
    tc.push(0);
    assert!(matches!(completion_key(&tc), Err(Error::Invalid { .. })));
    assert!(matches!(action_key(&[0xff; 12]), Err(Error::Invalid { .. })));
    assert!(matches!(artifact_ref(&[0xff; 12]), Err(Error::Invalid { .. })));
    let mut bad_tag = source("p").encode();
    let tag_at = bad_tag.len() - 1;
    bad_tag[tag_at] = 7;
    assert!(matches!(artifact_ref(&bad_tag), Err(Error::Invalid { .. })));
    let mut bad_sel =
        TargetCompletionKey { ct: owner("a", "t"), outputs: OutputSelection::Default }.encode();
    let sel_at = bad_sel.len() - 1;
    bad_sel[sel_at] = 9;
    assert!(matches!(completion_key(&bad_sel), Err(Error::Invalid { .. })));
    let owner_bytes = owner("a", "t").canonical;
    let mut padded = Vec::new();
    padded.extend_from_slice(&((owner_bytes.len() + 1) as u64).to_be_bytes());
    padded.extend_from_slice(&owner_bytes);
    padded.push(0); // pad byte inside the owner frame
    padded.extend_from_slice(&0u32.to_be_bytes());
    assert!(
        matches!(action_key(&padded), Err(Error::Invalid { .. })),
        "a non-canonical owner frame must fail closed, never alias"
    );
}

#[test]
fn artifact_content_encoded_action_bytes_do_not_alias_positional() {
    let content_key = ActionKey::new(
        "Compile".to_string(),
        strings(&["cc", "-o", "out"]),
        StringMap::from_pairs(&vec![("CC".to_string(), "gcc".to_string())]),
        vec![],
        vec![ActionInput { path: "in".into(), content: b"data".to_vec() }],
        strings(&["out"]),
        None,
        StringMap::new(),
    );
    match action_key(&content_key.encode()) {
        Err(Error::Invalid { .. }) => {}
        Ok(k) => panic!(
            "a content-encoded ACTION byte string must NOT alias a positional key (got owner //{}:{})",
            k.owner.package, k.owner.name
        ),
        Err(e) => panic!("expected a typed Invalid, got {e:?}"),
    }
}

#[test]
fn artifact_tree_child_constructor_fails_closed() {
    let parent = derived("app/tree", gak("app", "t", 0));
    assert!(matches!(
        ArtifactProducer::tree_child(&parent, "child.txt"),
        Err(Error::Unsupported { .. })
    ));
    let mut bytes = source("p").encode();
    let tag_at = bytes.len() - 1;
    bytes[tag_at] = 2;
    assert!(
        matches!(artifact_ref(&bytes), Err(Error::Invalid { .. })),
        "the reserved TreeChild tag must fail closed until trees land"
    );
}

#[test]
fn artifact_resolver_maps_sibling_output_to_derived_else_source() {
    let o = owner("app", "t");
    let c = ct(vec![
        tmpl("Gen", &["app/in.txt"], &["app/mid.txt"]),
        tmpl("Pack", &["app/mid.txt"], &["app/out.txt"]),
    ]);
    let r = SameTargetOrSourceResolver;
    let mid = r.resolve(&o, &c, "app/mid.txt").unwrap();
    assert_eq!(mid.producer, ArtifactProducer::Derived(gak("app", "t", 0)));
    let src = r.resolve(&o, &c, "app/in.txt").unwrap();
    assert_eq!(src.producer, ArtifactProducer::Source);
}

#[test]
fn artifact_resolver_maps_dep_output_to_producer_via_chaining_map() {
    let o = owner("app", "bin");
    let dep_ct = configured("app", "lib", "host");
    let mut c = ct(vec![tmpl("Link", &["app/main.rs", "app/liblib.rlib"], &["app/bin"])]);
    c.dep_outputs = vec![DepOutput {
        exec_path: "app/liblib.rlib".into(),
        producer_ct: dep_ct.clone(),
        action_index: 0,
    }];
    let r = SameTargetOrSourceResolver;
    let rlib = r.resolve(&o, &c, "app/liblib.rlib").unwrap();
    assert_eq!(
        rlib.producer,
        ArtifactProducer::Derived(GeneratingActionKey { owner: dep_ct, action_index: 0 }),
        "a dep output must resolve to ITS producing action via the chaining map"
    );
    assert_eq!(r.resolve(&o, &c, "app/main.rs").unwrap().producer, ArtifactProducer::Source);
    assert_eq!(
        r.resolve(&o, &c, "app/bin").unwrap().producer,
        ArtifactProducer::Derived(gak("app", "bin", 0))
    );
}

#[test]
fn artifact_unresolvable_input_fails_closed_at_the_resolver() {
    let o = owner("app", "t");
    let c = ct(vec![tmpl("M", &[], &["app/o"])]);
    let r = SameTargetOrSourceResolver;
    for bad in ["/etc/passwd", "../up.txt", "a/../b.txt", ""] {
        assert!(
            matches!(r.resolve(&o, &c, bad), Err(Error::Unsupported { .. })),
            "input form '{bad}' must fail closed"
        );
    }
}

#[test]
fn artifact_blobstore_missing_digest_fails_closed() {
    let mut store = InMemoryBlobStore::new();
    let d = digest_of(b"bytes");
    store.put(&d, b"bytes");
    assert_eq!(store.get(&d).unwrap(), b"bytes".to_vec(), "put→get round-trips");
    let absent = digest_of(b"never stored");
    assert!(
        matches!(store.get(&absent), Err(Error::NotFound { .. })),
        "a missing digest must be a typed NotFound, never empty bytes"
    );
}

#[test]
fn artifact_derived_outputs_stamps_declaration_order() {
    let o = owner("app", "t");
    let c = ct(vec![tmpl("Gen", &[], &["app/mid.txt"]), tmpl("Pack", &[], &["app/out.txt"])]);
    let refs = derived_outputs(&o, &c).unwrap();
    assert_eq!(refs.len(), 2);
    assert_eq!(refs[0].exec_path, "app/mid.txt");
    assert_eq!(refs[0].producer, ArtifactProducer::Derived(gak("app", "t", 0)));
    assert_eq!(refs[1].exec_path, "app/out.txt");
    assert_eq!(refs[1].producer, ArtifactProducer::Derived(gak("app", "t", 1)));
}

#[test]
fn artifact_duplicate_output_conflict_fail_closed() {
    let o = owner("app", "t");
    let c = ct(vec![tmpl("A", &[], &["app/dup.txt"]), tmpl("B", &[], &["app/dup.txt"])]);
    match derived_outputs(&o, &c) {
        Err(Error::Conflict { .. }) => {}
        Ok(refs) => panic!("a duplicate declared output must be a typed Conflict, got {} refs", refs.len()),
        Err(e) => panic!("expected Conflict, got {e:?}"),
    }
}

#[test]
fn artifact_artifact_is_a_pure_projection_of_its_producer() {
    let g = gak("app", "t", 0);
    let aref = derived("app/out.txt", g.clone());
    let d = digest_of(b"produced-bytes");
    let produced = || {
        NodeValue::Action(ActionValue {
            exit_code: 0,
            outputs: vec![OutputDigest { path: "app/out.txt".into(), digest: d.clone() }],
        })
    };
    // (1) with the producer NOT served: the projection must DEMAND it (Missing on the ACTION key).
    let mut cold = MapCtx::new();
    match compute_artifact(&aref.encode(), &mut cold) {
        ComputeResult::Missing { recorded_dep_keys } => {
            assert_eq!(
                recorded_dep_keys,
                vec![NodeKey::Action(g.clone())],
                "the ARTIFACT must request its producer"
            );
        }
        ComputeResult::Ready(_) => {
            panic!("the ARTIFACT must not publish a digest without requesting its producer")
        }
        _ => panic!("expected Missing"),
    }
    // (2) with the producer served: the value is the ONE projected {exec_path, digest} entry.
    let mut warm = MapCtx::new().serve(NodeKey::Action(g.clone()), produced());
    match compute_artifact(&aref.encode(), &mut warm) {
        ComputeResult::Ready(NodeValue::Artifact(a)) => {
            assert_eq!(a.digest, d, "the digest is PROJECTED from the producer's value, never fabricated");
            assert_eq!(a.exec_path, "app/out.txt");
            assert_eq!(warm.requested, vec![NodeKey::Action(g.clone())], "exactly the producer edge");
        }
        _ => panic!("expected Ready"),
    }
    // (3) a projected path ABSENT from the producer's outputs is a typed error, never empty.
    let ghost = derived("app/ghost.txt", g.clone());
    let mut warm2 = MapCtx::new().serve(NodeKey::Action(g.clone()), produced());
    assert!(
        matches!(
            compute_artifact(&ghost.encode(), &mut warm2),
            ComputeResult::Error(Error::Invalid { .. })
        ),
        "an output absent from the producer's value must fail closed"
    );
}

#[test]
fn artifact_target_completion_requests_ct_then_its_artifact_group() {
    let o = owner("app", "t");
    let tck = TargetCompletionKey { ct: o.clone(), outputs: OutputSelection::Default };
    // (1) cold: the CT is requested first.
    let mut cold = MapCtx::new();
    match compute_completion(&tck.encode(), &mut cold) {
        ComputeResult::Missing { recorded_dep_keys } => {
            assert_eq!(recorded_dep_keys, vec![NodeKey::ConfiguredTarget(o.clone())]);
        }
        _ => panic!("expected Missing on the CT"),
    }
    // (2) CT served: the default outputs' ARTIFACT nodes are requested as one group.
    let c = || NodeValue::ConfiguredTarget(ct(vec![tmpl("Gen", &[], &["app/out.txt"])]));
    let expected_artifact = derived("app/out.txt", gak("app", "t", 0));
    let mut with_ct = MapCtx::new().serve(NodeKey::ConfiguredTarget(o.clone()), c());
    match compute_completion(&tck.encode(), &mut with_ct) {
        ComputeResult::Missing { recorded_dep_keys } => {
            assert_eq!(
                recorded_dep_keys,
                vec![NodeKey::Artifact(expected_artifact.clone())],
                "completion must DEMAND the output artifacts — the dep requests ARE the build"
            );
        }
        ComputeResult::Ready(_) => {
            panic!("the sentinel must not be published without requesting the outputs")
        }
        _ => panic!("expected Missing on the artifact group"),
    }
    // (3) everything served: the sentinel.
    let mut full = MapCtx::new().serve(NodeKey::ConfiguredTarget(o.clone()), c()).serve(
        NodeKey::Artifact(expected_artifact),
        NodeValue::Artifact(ArtifactValue {
            exec_path: "app/out.txt".into(),
            digest: digest_of(b"x"),
        }),
    );
    match compute_completion(&tck.encode(), &mut full) {
        ComputeResult::Ready(v) => {
            assert!(matches!(v, NodeValue::TargetCompletion(_)), "the value is the sentinel");
        }
        _ => panic!("expected Ready"),
    }
}
