use razel_action::text::append_decimal;
use razel_action::values::as_configured_target;
use razel_action::{
    decode_artifact_ref, decode_generating_action_key, decode_target_completion_key, derived_outputs,
    ActionTemplate, ActionValue, ArtifactProducer, ArtifactRef, ArtifactValue, BlobStore,
    ConfiguredTarget, ConfiguredTargetKey, DepOutput, Digest, Error, GeneratingActionKey, Halt,
    InMemoryBlobStore, InputResolver, NodeValue, OutputDigest, OutputSelection,
    SameTargetOrSourceResolver, StringMap, TargetCompletionKey, TargetCompletionValue, ACTION,
    ARTIFACT, TARGET_COMPLETION,
};

// A target whose canonical bytes are those of its name.
fn owner(name: &str) -> ConfiguredTargetKey {
    ConfiguredTargetKey {
        package: "pkg".to_string(),
        name: name.to_string(),
        canonical: name.as_bytes().to_vec(),
    }
}

fn gak(name: &str, action_index: u32) -> GeneratingActionKey {
    GeneratingActionKey { owner: owner(name), action_index }
}

fn action(outputs: &[&str]) -> ActionTemplate {
    ActionTemplate {
        mnemonic: "M".to_string(),
        argv: vec![],
        env: vec![],
        inputs: vec![],
        outputs: outputs.iter().map(|s| s.to_string()).collect(),
    }
}

fn invalid(what: &str, detail: &str) -> Error {
    Error::Invalid { what: what.to_string(), detail: detail.to_string() }
}

fn digest(hex: &str) -> Digest {
    Digest { hex: hex.to_string() }
}

#[test]
fn key_bytes_are_exact() {
    let g = gak("ab", 0x0102_0304);
    let g_bytes = vec![0, 0, 0, 0, 0, 0, 0, 2, b'a', b'b', 1, 2, 3, 4];
    assert_eq!(g.encode(), g_bytes);
    let src = ArtifactRef { exec_path: "p".into(), producer: ArtifactProducer::Source };
    assert_eq!(src.encode(), vec![0, 0, 0, 0, 0, 0, 0, 1, b'p', 0]);
    let der = ArtifactRef { exec_path: "p".into(), producer: ArtifactProducer::Derived(g.clone()) };
    let mut expected = vec![0, 0, 0, 0, 0, 0, 0, 1, b'p', 1];
    expected.extend_from_slice(&g_bytes);
    assert_eq!(der.encode(), expected);
    let k = TargetCompletionKey { ct: owner("ab"), outputs: OutputSelection::Default };
    assert_eq!(k.encode(), vec![0, 0, 0, 0, 0, 0, 0, 2, b'a', b'b', 0]);
    assert_eq!(g.kind(), ACTION);
    assert_eq!(src.kind(), ARTIFACT);
    assert_eq!(k.kind(), TARGET_COMPLETION);
    assert_eq!((ACTION, ARTIFACT, TARGET_COMPLETION), (60, 61, 62));
}

#[test]
fn decoders_ask_for_the_encoded_owner() {
    let g = gak("ab", 1);
    assert_eq!(
        decode_generating_action_key(&g.encode(), None),
        Err(Halt::NeedsOwner(b"ab".to_vec()))
    );
    assert_eq!(decode_generating_action_key(&g.encode(), Some(Ok(owner("ab")))), Ok(g.clone()));
    let der = ArtifactRef { exec_path: "p".into(), producer: ArtifactProducer::Derived(g) };
    assert_eq!(decode_artifact_ref(&der.encode(), None), Err(Halt::NeedsOwner(b"ab".to_vec())));
    assert_eq!(decode_artifact_ref(&der.encode(), Some(Ok(owner("ab")))), Ok(der));
    let src = ArtifactRef { exec_path: "p".into(), producer: ArtifactProducer::Source };
    assert_eq!(decode_artifact_ref(&src.encode(), None), Ok(src));
    let k = TargetCompletionKey { ct: owner("ab"), outputs: OutputSelection::Default };
    assert_eq!(
        decode_target_completion_key(&k.encode(), None),
        Err(Halt::NeedsOwner(b"ab".to_vec()))
    );
    assert_eq!(decode_target_completion_key(&k.encode(), Some(Ok(owner("ab")))), Ok(k));
}

#[test]
fn key_failures_are_named() {
    let g = gak("ab", 1).encode();
    let fails = |bytes: &[u8], answer| match decode_generating_action_key(bytes, answer) {
        Err(Halt::Failed(e)) => e,
        other => panic!("expected a failure, got {other:?}"),
    };
    assert_eq!(
        fails(&g, Some(Ok(owner("abc")))),
        invalid("ACTION key", "non-canonical owner CT-key frame")
    );
    assert_eq!(fails(&g[..13], Some(Ok(owner("ab")))), invalid("ACTION key", "truncated"));
    assert_eq!(fails(&g[..9], None), invalid("ACTION key", "truncated"));
    assert_eq!(fails(&[0xff; 12], None), invalid("ACTION key", "length overflow"));
    let mut longer = g.clone();
    longer.push(7);
    assert_eq!(fails(&longer, Some(Ok(owner("ab")))), invalid("ACTION key", "trailing bytes"));
    let refused = Error::NotFound { what: "w".into(), detail: "d".into() };
    assert_eq!(fails(&g, Some(Err(refused.clone()))), refused);

    let art = |bytes: &[u8]| match decode_artifact_ref(bytes, None) {
        Err(Halt::Failed(e)) => e,
        other => panic!("expected a failure, got {other:?}"),
    };
    let mut bytes = ArtifactRef { exec_path: "p".into(), producer: ArtifactProducer::Source }.encode();
    bytes[9] = 2;
    assert_eq!(
        art(&bytes),
        invalid("ARTIFACT key", "reserved TreeChild producer tag (R6): tree artifacts are deferred")
    );
    bytes[9] = 107;
    assert_eq!(art(&bytes), invalid("ARTIFACT key", "bad producer tag 107"));
    bytes[8] = 0x80;
    assert_eq!(art(&bytes), invalid("ARTIFACT key", "non-utf8"));

    let mut sel = TargetCompletionKey { ct: owner("ab"), outputs: OutputSelection::Default }.encode();
    sel[10] = 9;
    assert_eq!(
        decode_target_completion_key(&sel, Some(Ok(owner("ab")))),
        Err(Halt::Failed(invalid("TARGET_COMPLETION key", "bad output-selection tag 9")))
    );
}

#[test]
fn tree_children_are_reserved() {
    let parent = ArtifactRef { exec_path: "p".into(), producer: ArtifactProducer::Source };
    assert_eq!(
        ArtifactProducer::tree_child(&parent, "c"),
        Err(Error::Unsupported {
            what: "tree artifacts",
            detail: "TreeChild is a reserved constructor (lockdown R6): tree artifacts are deferred; codec tag 2 is reserved".into(),
        })
    );
}

#[test]
fn non_ascii_paths_round_trip() {
    let src = ArtifactRef { exec_path: "straße/ö".into(), producer: ArtifactProducer::Source };
    assert_eq!(decode_artifact_ref(&src.encode(), None), Ok(src));
}

#[test]
fn repeated_outputs_are_conflicts() {
    let conflict = |detail: &str| {
        Err(Error::Conflict {
            what: "duplicate declared output".to_string(),
            detail: detail.to_string(),
        })
    };
    let ct = |actions| ConfiguredTarget { actions, dep_outputs: vec![] };
    assert_eq!(
        derived_outputs(&owner("t"), &ct(vec![action(&["a"]), action(&["b"]), action(&["c", "b", "a"])])),
        conflict("//pkg:t: 'b' is declared by action #1 and action #2")
    );
    assert_eq!(
        derived_outputs(&owner("t"), &ct(vec![action(&["a", "a"])])),
        conflict("//pkg:t: 'a' is declared by action #0 and action #0")
    );
    assert_eq!(derived_outputs(&owner("t"), &ct(vec![])), Ok(vec![]));
}

#[test]
fn every_stamped_output_resolves_to_itself() {
    let o = owner("t");
    let ct = ConfiguredTarget {
        actions: vec![action(&["a", "b"]), action(&[]), action(&["c/d"])],
        dep_outputs: vec![DepOutput {
            exec_path: "a".into(),
            producer_ct: owner("other"),
            action_index: 0,
        }],
    };
    let refs = derived_outputs(&o, &ct).unwrap();
    assert_eq!(refs.len(), 3);
    for r in refs {
        assert_eq!(SameTargetOrSourceResolver.resolve(&o, &ct, &r.exec_path), Ok(r));
    }
}

#[test]
fn the_first_declaration_wins_in_the_resolver() {
    let o = owner("t");
    let ct = ConfiguredTarget {
        actions: vec![action(&["x"]), action(&["dup"]), action(&["dup"])],
        dep_outputs: vec![
            DepOutput { exec_path: "dep".into(), producer_ct: owner("l"), action_index: 3 },
            DepOutput { exec_path: "dep".into(), producer_ct: owner("m"), action_index: 4 },
        ],
    };
    let r = SameTargetOrSourceResolver;
    assert_eq!(
        r.resolve(&o, &ct, "dup").unwrap().producer,
        ArtifactProducer::Derived(gak("t", 1))
    );
    assert_eq!(
        r.resolve(&o, &ct, "dep").unwrap().producer,
        ArtifactProducer::Derived(gak("l", 3))
    );
}

#[test]
fn only_segments_of_two_dots_go_up() {
    let o = owner("t");
    let ct = ConfiguredTarget { actions: vec![], dep_outputs: vec![] };
    let r = SameTargetOrSourceResolver;
    for good in ["a", "a..b", "..a", "a..", ".", "a/./b", "a//b", "...", "a/", "é/.."] {
        let up = good.split('/').any(|s| s == "..");
        assert_eq!(r.resolve(&o, &ct, good).is_ok(), !up, "{good}");
    }
    for bad in ["..", "../a", "a/..", "a/../b", "/", "/a", ""] {
        assert!(matches!(r.resolve(&o, &ct, bad), Err(Error::Unsupported { .. })), "{bad}");
    }
}

#[test]
fn a_store_keeps_what_it_has() {
    let mut store = InMemoryBlobStore::default();
    assert_eq!(
        store.get(&digest("d")),
        Err(Error::NotFound { what: "blob".into(), detail: "d".into() })
    );
    store.put(&digest("d"), b"one");
    store.put(&digest("e"), b"");
    assert_eq!(store.get(&digest("d")), Ok(b"one".to_vec()));
    assert_eq!(store.get(&digest("e")), Ok(vec![]));
    store.put(&digest("d"), b"two");
    assert_eq!(store.get(&digest("d")), Ok(b"two".to_vec()));
    assert_eq!(digest("00ff").to_hex(), "00ff");
}

#[test]
fn action_value_content_is_exact() {
    let out = |p: &str, d: &str| OutputDigest { path: p.to_string(), digest: digest(d) };
    let v = ActionValue { exit_code: -2, outputs: vec![out("p", "d1")] };
    let expected = vec![
        0xff, 0xff, 0xff, 0xfe, 0, 0, 0, 0, 0, 0, 0, 1, 0, 0, 0, 0, 0, 0, 0, 1, b'p', 0, 0, 0, 0, 0,
        0, 0, 2, b'd', b'1',
    ];
    assert_eq!(v.content_bytes(), expected);
    let w = ActionValue { exit_code: 258, outputs: vec![] };
    assert_eq!(w.content_bytes(), vec![0, 0, 1, 2, 0, 0, 0, 0, 0, 0, 0, 0]);
}

#[test]
fn values_are_equal_where_their_content_is() {
    let out = |p: &str, d: &str| OutputDigest { path: p.to_string(), digest: digest(d) };
    let values = |i: usize| match i {
        0 => ActionValue { exit_code: 0, outputs: vec![] },
        1 => ActionValue { exit_code: 1, outputs: vec![] },
        2 => ActionValue { exit_code: 0, outputs: vec![out("a", "1")] },
        3 => ActionValue { exit_code: 0, outputs: vec![out("a", "2")] },
        4 => ActionValue { exit_code: 0, outputs: vec![out("b", "1")] },
        _ => ActionValue { exit_code: 0, outputs: vec![out("a", "1"), out("b", "1")] },
    };
    for i in 0..6 {
        for j in 0..6 {
            let same = values(i).value_eq(&NodeValue::Action(values(j)));
            assert_eq!(same, i == j);
            assert_eq!(values(i).content_bytes() == values(j).content_bytes(), i == j);
        }
        assert!(!values(i).value_eq(&NodeValue::Other));
    }
    let art = |p: &str, d: &str| ArtifactValue { exec_path: p.to_string(), digest: digest(d) };
    assert!(art("p", "d").value_eq(&NodeValue::Artifact(art("p", "d"))));
    assert!(!art("p", "d").value_eq(&NodeValue::Artifact(art("p", "e"))));
    assert!(!art("p", "d").value_eq(&NodeValue::Artifact(art("q", "d"))));
    assert!(!art("p", "d").value_eq(&NodeValue::TargetCompletion(TargetCompletionValue)));
    assert_eq!(
        art("p", "d1").content_bytes(),
        vec![0, 0, 0, 0, 0, 0, 0, 1, b'p', b'd', b'1']
    );
    let sentinel = TargetCompletionValue;
    assert!(sentinel.value_eq(&NodeValue::TargetCompletion(TargetCompletionValue)));
    assert!(!sentinel.value_eq(&NodeValue::Other));
    assert_eq!(sentinel.content_bytes(), b"TARGET_COMPLETION sentinel".to_vec());
}

#[test]
fn values_are_shared_metadata() {
    let v = ActionValue { exit_code: 0, outputs: vec![] };
    let p = v.policy();
    assert!(p.comparable && !p.always_dirty && p.shareable && p.serializable && !p.process_local);
    let a = ArtifactValue { exec_path: "p".into(), digest: digest("d") };
    assert_eq!(a.policy(), p);
    assert_eq!(TargetCompletionValue.policy(), p);
}

#[test]
fn only_a_configured_target_is_one() {
    let ct = ConfiguredTarget { actions: vec![action(&["o"])], dep_outputs: vec![] };
    let v = NodeValue::ConfiguredTarget(ct);
    assert_eq!(as_configured_target(&v).unwrap().actions[0].outputs, vec!["o".to_string()]);
    assert_eq!(
        as_configured_target(&NodeValue::Other).unwrap_err(),
        invalid("CONFIGURED_TARGET dep", "not a ConfiguredTarget")
    );
}

#[test]
fn maps_are_walked_in_the_order_of_their_keys() {
    let pair = |k: &str, v: &str| (k.to_string(), v.to_string());
    let a = StringMap::from_pairs(&vec![pair("b", "1"), pair("a", "2"), pair("b", "3")]);
    let mut b = StringMap::new();
    b.insert("b".into(), "3".into());
    b.insert("c".into(), "4".into());
    assert_ne!(a, b);
    let mut c = StringMap::new();
    c.insert("b".into(), "3".into());
    c.insert("a".into(), "2".into());
    assert_eq!(a, c);
    assert_eq!(a.len(), 2);
    assert_eq!(a.to_pairs(), vec![pair("a", "2"), pair("b", "3")]);
    let mut bytes = Vec::new();
    c.put(&mut bytes);
    assert_eq!(bytes[..17], [0, 0, 0, 0, 0, 0, 0, 2, 0, 0, 0, 0, 0, 0, 0, 1, b'a']);
}

#[test]
fn numbers_are_written_in_decimal() {
    let mut s = String::from("#");
    append_decimal(&mut s, 0);
    s.push(' ');
    append_decimal(&mut s, 907);
    s.push(' ');
    append_decimal(&mut s, u64::MAX);
    assert_eq!(s, "#0 907 18446744073709551615");
}

#[test]
fn keys_are_all_or_nothing() {
    let der = ArtifactRef { exec_path: "p".into(), producer: ArtifactProducer::Derived(gak("ab", 1)) };
    let der_bytes = der.encode();
    for cut in 0..der_bytes.len() {
        assert!(matches!(
            decode_artifact_ref(&der_bytes[..cut], Some(Ok(owner("ab")))),
            Err(Halt::Failed(Error::Invalid { .. }))
        ));
    }
    let k = TargetCompletionKey { ct: owner("ab"), outputs: OutputSelection::Default };
    let k_bytes = k.encode();
    for cut in 0..k_bytes.len() {
        assert!(matches!(
            decode_target_completion_key(&k_bytes[..cut], Some(Ok(owner("ab")))),
            Err(Halt::Failed(Error::Invalid { .. }))
        ));
    }
    for more in [vec![0], vec![1, 2, 3, 4], der_bytes.clone()] {
        let mut longer = der_bytes.clone();
        longer.extend_from_slice(&more);
        assert_eq!(
            decode_artifact_ref(&longer, Some(Ok(owner("ab")))),
            Err(Halt::Failed(invalid("ARTIFACT key", "trailing bytes")))
        );
        let mut longer = k_bytes.clone();
        longer.extend_from_slice(&more);
        assert_eq!(
            decode_target_completion_key(&longer, Some(Ok(owner("ab")))),
            Err(Halt::Failed(invalid("TARGET_COMPLETION key", "trailing bytes")))
        );
    }
}

#[test]
fn a_foreign_owner_is_refused_by_every_decoder() {
    let der = ArtifactRef { exec_path: "p".into(), producer: ArtifactProducer::Derived(gak("ab", 1)) };
    assert_eq!(
        decode_artifact_ref(&der.encode(), Some(Ok(owner("cd")))),
        Err(Halt::Failed(invalid("ARTIFACT key", "non-canonical owner CT-key frame")))
    );
    let k = TargetCompletionKey { ct: owner("ab"), outputs: OutputSelection::Default };
    assert_eq!(
        decode_target_completion_key(&k.encode(), Some(Ok(owner("")))),
        Err(Halt::Failed(invalid("TARGET_COMPLETION key", "non-canonical owner CT-key frame")))
    );
}

#[test]
fn what_decodes_encodes_to_the_same_bytes() {
    // Every change of one byte of a key is another key or none at all.
    let good = gak("ab", 1).encode();
    for at in 0..good.len() {
        for flip in [1u8, 0x80] {
            let mut bytes = good.clone();
            bytes[at] ^= flip;
            for name in ["ab", "cb", "ac"] {
                if let Ok(k) = decode_generating_action_key(&bytes, Some(Ok(owner(name)))) {
                    assert_eq!(k.encode(), bytes);
                    assert_ne!(k, gak("ab", 1));
                }
            }
        }
    }
}

#[test]
fn a_store_of_bytes_under_their_digests_is_content_addressed() {
    let digest_of = |bytes: &[u8]| digest(&format!("{}-{}", bytes.len(), bytes.first().unwrap_or(&0)));
    let mut store = InMemoryBlobStore::new();
    for bytes in [&b"a"[..], &b"bc"[..], &b""[..]] {
        store.put(&digest_of(bytes), bytes);
    }
    for bytes in [&b"a"[..], &b"bc"[..], &b""[..]] {
        let found = store.get(&digest_of(bytes)).unwrap();
        assert_eq!(found, bytes.to_vec());
        assert_eq!(digest_of(&found), digest_of(bytes));
    }
}
