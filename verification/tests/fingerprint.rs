use razel_action::codec::{enc_bytes, enc_str};
use razel_action::{decode_action_key, ActionInput, ActionKey, Error, ExecPlatformRef, StringMap};

fn strings(list: &[&str]) -> Vec<String> {
    list.iter().map(|s| s.to_string()).collect()
}

fn map(pairs: &[(&str, &str)]) -> StringMap {
    let owned: Vec<(String, String)> =
        pairs.iter().map(|(k, v)| (k.to_string(), v.to_string())).collect();
    StringMap::from_pairs(&owned)
}

fn tool(path: &str, content: &[u8]) -> ActionInput {
    ActionInput { path: path.to_string(), content: content.to_vec() }
}

fn akey(mnemonic: &str, argv: &[&str], inputs: &[(&str, &[u8])], outputs: &[&str]) -> ActionKey {
    ActionKey::new(
        mnemonic.to_string(),
        strings(argv),
        StringMap::new(),
        Vec::new(),
        inputs.iter().map(|(p, c)| tool(p, c)).collect(),
        strings(outputs),
        None,
        StringMap::new(),
    )
}

// A key that uses the tools, the platform and the execution properties.
fn wkey(
    tools: &[(&str, &[u8])],
    exec_platform: Option<ExecPlatformRef>,
    exec_properties: &[(&str, &str)],
) -> ActionKey {
    ActionKey::new(
        "M".to_string(),
        strings(&["a"]),
        StringMap::new(),
        tools.iter().map(|(p, c)| tool(p, c)).collect(),
        vec![],
        strings(&["o"]),
        exec_platform,
        map(exec_properties),
    )
}

#[test]
fn action_key_changes_with_inputs_argv_env_and_is_stable_otherwise() {
    let base = akey("M", &["a"], &[("in", b"v1")], &["o"]);
    let again = ActionKey::new(
        "M".to_string(),
        vec!["a".into()],
        StringMap::new(),
        Vec::new(),
        vec![ActionInput { path: "in".into(), content: b"v1".to_vec() }],
        vec!["o".into()],
        None,
        StringMap::new(),
    );
    assert_eq!(base.encode(), again.encode(), "the same action content must be a stable key");

    let input_changed = akey("M", &["a"], &[("in", b"v2")], &["o"]);
    assert_ne!(base.encode(), input_changed.encode(), "changing an input's content must change the key");

    let argv_changed = akey("M", &["b"], &[("in", b"v1")], &["o"]);
    assert_ne!(base.encode(), argv_changed.encode(), "changing argv must change the key");

    let mut env_changed = base.clone();
    env_changed.env.insert("K".into(), "V".into());
    assert_ne!(base.encode(), env_changed.encode(), "changing env must change the key");

    let out_changed = akey("M", &["a"], &[("in", b"v1")], &["o", "o2"]);
    assert_ne!(base.encode(), out_changed.encode(), "changing declared outputs must change the key");
}

#[test]
fn action_key_changes_for_tools() {
    let base = wkey(&[("bin/gcc-12", b"cc-v12")], None, &[]);

    let no_tools = wkey(&[], None, &[]);
    assert_ne!(no_tools.encode(), base.encode(), "adding a tool entry must change the key");

    let content_changed = wkey(&[("bin/gcc-12", b"cc-v13")], None, &[]);
    assert_ne!(base.encode(), content_changed.encode(), "changing a tool's content must change the key");

    let renamed = wkey(&[("bin/gcc-13", b"cc-v12")], None, &[]);
    assert_ne!(base.encode(), renamed.encode(), "renaming a tool's path must change the key");

    let added = wkey(&[("bin/gcc-12", b"cc-v12"), ("bin/ld", b"ld")], None, &[]);
    assert_ne!(base.encode(), added.encode(), "adding a tool must change the key");

    let ab = wkey(&[("bin/gcc-12", b"cc-v12"), ("bin/ld", b"ld")], None, &[]);
    let ba = wkey(&[("bin/ld", b"ld"), ("bin/gcc-12", b"cc-v12")], None, &[]);
    assert_eq!(ab.encode(), ba.encode(), "tool declaration order must NOT change the key (sorted by path)");
}

#[test]
fn action_key_changes_for_exec() {
    let host = wkey(&[], None, &[]);
    let plat = ExecPlatformRef { label: "//platforms:linux_x86".into(), resolved_digest: b"pdig-1".to_vec() };

    let on_plat = wkey(&[], Some(plat.clone()), &[]);
    assert_ne!(host.encode(), on_plat.encode(), "None vs Some(exec_platform) must be distinct keys");

    let other_label = wkey(
        &[],
        Some(ExecPlatformRef { label: "//platforms:linux_arm".into(), resolved_digest: b"pdig-1".to_vec() }),
        &[],
    );
    assert_ne!(on_plat.encode(), other_label.encode(), "a different platform label must be a distinct key");

    let other_digest = wkey(
        &[],
        Some(ExecPlatformRef { label: "//platforms:linux_x86".into(), resolved_digest: b"pdig-2".to_vec() }),
        &[],
    );
    assert_ne!(
        on_plat.encode(),
        other_digest.encode(),
        "editing platform content under an unchanged label must change the key (resolved digest is folded)"
    );

    let with_prop = wkey(&[], None, &[("dockerImage", "img:1")]);
    assert_ne!(host.encode(), with_prop.encode(), "adding an exec_properties pair must change the key");

    let prop_changed = wkey(&[], None, &[("dockerImage", "img:2")]);
    assert_ne!(with_prop.encode(), prop_changed.encode(), "changing an exec_properties value must change the key");

    let kv = wkey(&[], None, &[("a", "1"), ("b", "2")]);
    let vk = wkey(&[], None, &[("b", "2"), ("a", "1")]);
    assert_eq!(kv.encode(), vk.encode(), "exec_properties insertion order must NOT change the key (sorted)");
}

#[test]
fn host_absolute_path_not_in_action_identity() {
    let declared = map(&[("CC", "gcc")]);
    let build = || {
        ActionKey::new(
            "M".to_string(),
            vec!["a".into()],
            declared.clone(),
            vec![],
            vec![],
            vec!["o".into()],
            None,
            StringMap::new(),
        )
    };
    assert_eq!(
        build().encode(),
        build().encode(),
        "the key must be a pure function of its declared surface (byte-identical reconstruction)"
    );
    assert_eq!(build().to_request().env, declared, "host env must not leak into the SpawnRequest env");
}

#[test]
fn effective_action_env_in_action_key() {
    let declared = map(&[("CC", "gcc"), ("OPT", "2")]);
    let key = ActionKey::new(
        "M".to_string(),
        vec!["a".into()],
        declared.clone(),
        vec![],
        vec![],
        vec!["o".into()],
        None,
        StringMap::new(),
    );
    assert_eq!(key.env, declared, "the key's env dimension is the declared map");
    assert_eq!(key.to_request().env, declared, "the spawn env IS the key env (one source, no second channel)");
    assert_eq!(decode_action_key(&key.encode()).unwrap().env, declared, "the encoded key carries the same map");
    let mut bumped = key.clone();
    bumped.env.insert("OPT".into(), "3".into());
    assert_ne!(key.encode(), bumped.encode(), "changing a declared env value must change the key");
}

// The first five frames alone: mnemonic, argv, env, inputs, outputs.
fn encode_five_frames(k: &ActionKey, env: &[(&str, &str)]) -> Vec<u8> {
    let mut b = Vec::new();
    enc_str(&mut b, &k.mnemonic);
    b.extend_from_slice(&(k.argv.len() as u64).to_be_bytes());
    for a in &k.argv {
        enc_str(&mut b, a);
    }
    b.extend_from_slice(&(env.len() as u64).to_be_bytes());
    for (kk, v) in env {
        enc_str(&mut b, kk);
        enc_str(&mut b, v);
    }
    b.extend_from_slice(&(k.inputs.len() as u64).to_be_bytes());
    for i in &k.inputs {
        enc_str(&mut b, &i.path);
        enc_bytes(&mut b, &i.content);
    }
    b.extend_from_slice(&(k.outputs.len() as u64).to_be_bytes());
    for o in &k.outputs {
        enc_str(&mut b, o);
    }
    b
}

#[test]
fn legacy_five_frame_key_is_fail_closed_and_frames_are_stable() {
    let env = [("CC", "gcc")];
    let key = ActionKey::new(
        "Compile".to_string(),
        vec!["cc".into(), "-o".into(), "out".into()],
        map(&env),
        vec![],
        vec![],
        vec!["out".into()],
        None,
        StringMap::new(),
    );
    let five = encode_five_frames(&key, &env);
    let widened = key.encode();
    assert!(widened.len() > five.len(), "the widened encoding must append sentinel frames");
    assert_eq!(&widened[..five.len()], &five[..], "the first five frames must be a prefix of the encoding");
    match decode_action_key(&five) {
        Err(Error::Invalid { .. }) => {}
        Ok(k) => panic!("five frames alone must NOT alias a key (decoded {:?})", k.mnemonic),
        Err(e) => panic!("expected a typed Invalid, got {e:?}"),
    }
}

#[test]
fn action_key_round_trips() {
    let key = akey("Mn", &["a", "b"], &[("p/in", b"data")], &["p/out1", "p/out2"]);
    let decoded = decode_action_key(&key.encode()).expect("a well-formed key must decode");
    assert_eq!(decoded, key, "decode(encode(k)) == k (lossless)");
    assert_eq!(decoded.encode(), key.encode(), "re-encoding a decoded key must be byte-identical");

    let full = ActionKey::new(
        "Mn".to_string(),
        vec!["a".into()],
        map(&[("E", "v")]),
        vec![tool("bin/cc", b"cc-bytes"), tool("bin/ld", b"ld-bytes")],
        vec![ActionInput { path: "p/in".into(), content: b"data".to_vec() }],
        vec!["p/out".into()],
        Some(ExecPlatformRef { label: "//p:linux".into(), resolved_digest: b"pdig".to_vec() }),
        map(&[("dockerImage", "img:1")]),
    );
    let decoded = decode_action_key(&full.encode()).expect("a fully-populated widened key must decode");
    assert_eq!(decoded, full, "the widened key must round-trip losslessly (tools + exec dims included)");
    assert_eq!(decoded.encode(), full.encode(), "re-encoding a decoded widened key must be byte-identical");
}

#[test]
fn malformed_key_is_fail_closed() {
    assert!(
        matches!(decode_action_key(b"\x00\x00"), Err(Error::Invalid { .. })),
        "a truncated/garbage key must be a typed Invalid, never a panic"
    );
    assert!(
        matches!(decode_action_key(&[0xff; 8]), Err(Error::Invalid { .. })),
        "a huge declared length must fail closed, never panic on overflow"
    );

    let key = wkey(
        &[("bin/cc", b"cc")],
        Some(ExecPlatformRef { label: "//p:l".into(), resolved_digest: b"d".to_vec() }),
        &[("k", "v")],
    );
    let good = key.encode();
    let mut trailing = good.clone();
    trailing.push(0);
    assert!(
        matches!(decode_action_key(&trailing), Err(Error::Invalid { .. })),
        "a widened key with trailing bytes must fail closed"
    );
    for cut in 1..good.len() {
        assert!(
            matches!(decode_action_key(&good[..cut]), Err(Error::Invalid { .. })),
            "a key truncated at byte {cut} must fail closed"
        );
    }
    let empty = wkey(&[], None, &[]).encode();
    let mut bad_tag = empty.clone();
    let tag_at = empty.len() - 8 - 1; // ... [tools count 8][TAG 1][props count 8]
    assert_eq!(bad_tag[tag_at], 0, "sanity: the None sentinel tag byte");
    bad_tag[tag_at] = 7;
    assert!(
        matches!(decode_action_key(&bad_tag), Err(Error::Invalid { .. })),
        "a bad exec_platform tag must be a typed Invalid"
    );
}

#[test]
fn fingerprint_bytes_are_exact() {
    let key = ActionKey::new(
        "M".to_string(),
        strings(&["a"]),
        map(&[("K", "V")]),
        vec![tool("t", b"T")],
        vec![tool("i", b"I")],
        strings(&["o"]),
        Some(ExecPlatformRef { label: "L".into(), resolved_digest: vec![9] }),
        map(&[("p", "q")]),
    );
    let mut expected: Vec<u8> = Vec::new();
    let text = |b: &mut Vec<u8>, s: &[u8]| {
        b.extend_from_slice(&(s.len() as u64).to_be_bytes());
        b.extend_from_slice(s);
    };
    let one: [u8; 8] = [0, 0, 0, 0, 0, 0, 0, 1];
    text(&mut expected, b"M");
    expected.extend_from_slice(&one);
    text(&mut expected, b"a");
    expected.extend_from_slice(&one);
    text(&mut expected, b"K");
    text(&mut expected, b"V");
    expected.extend_from_slice(&one);
    text(&mut expected, b"i");
    text(&mut expected, b"I");
    expected.extend_from_slice(&one);
    text(&mut expected, b"o");
    expected.extend_from_slice(&one);
    text(&mut expected, b"t");
    text(&mut expected, b"T");
    expected.push(1);
    text(&mut expected, b"L");
    text(&mut expected, &[9]);
    expected.extend_from_slice(&one);
    text(&mut expected, b"p");
    text(&mut expected, b"q");
    assert_eq!(key.encode(), expected);
}

#[test]
fn texts_are_utf8_and_other_bytes_are_refused() {
    let key = akey("größe", &["ß"], &[("ä/ö", b"x")], &["ü"]);
    let decoded = decode_action_key(&key.encode()).expect("non-ASCII texts decode");
    assert_eq!(decoded.mnemonic, "größe");
    assert_eq!(decoded.inputs[0].path, "ä/ö");
    let mut bytes = akey("mm", &[], &[], &[]).encode();
    bytes[8] = 0xff;
    assert_eq!(
        decode_action_key(&bytes),
        Err(Error::Invalid { what: "ActionKey fingerprint".into(), detail: "non-utf8".into() })
    );
}

#[test]
fn decoder_failures_are_named() {
    let invalid = |detail: &str| -> Result<ActionKey, Error> {
        Err(Error::Invalid { what: "ActionKey fingerprint".into(), detail: detail.into() })
    };
    assert_eq!(decode_action_key(b""), invalid("truncated"));
    assert_eq!(decode_action_key(&[0xff; 8]), invalid("length overflow"));
    let good = wkey(&[], None, &[]).encode();
    let mut trailing = good.clone();
    trailing.push(0);
    assert_eq!(decode_action_key(&trailing), invalid("trailing bytes"));
    let mut bad_tag = good.clone();
    let tag_at = good.len() - 9;
    bad_tag[tag_at] = 255;
    assert_eq!(decode_action_key(&bad_tag), invalid("bad exec_platform tag 255"));
}

#[test]
fn a_count_without_items_is_refused() {
    // A mnemonic, and then a list that claims more items than there are bytes.
    let mut b: Vec<u8> = Vec::new();
    enc_str(&mut b, "M");
    b.extend_from_slice(&0x0000_00ff_ffff_ffffu64.to_be_bytes());
    assert_eq!(
        decode_action_key(&b),
        Err(Error::Invalid { what: "ActionKey fingerprint".into(), detail: "truncated".into() })
    );
}

#[test]
fn decoding_puts_map_entries_in_order_and_keeps_the_last_value() {
    let mut b: Vec<u8> = Vec::new();
    enc_str(&mut b, "M");
    b.extend_from_slice(&0u64.to_be_bytes());
    b.extend_from_slice(&3u64.to_be_bytes());
    for (k, v) in [("b", "1"), ("a", "2"), ("b", "3")] {
        enc_str(&mut b, k);
        enc_str(&mut b, v);
    }
    b.extend_from_slice(&0u64.to_be_bytes());
    b.extend_from_slice(&0u64.to_be_bytes());
    b.extend_from_slice(&0u64.to_be_bytes());
    b.push(0);
    b.extend_from_slice(&0u64.to_be_bytes());
    let key = decode_action_key(&b).unwrap();
    assert_eq!(key.env, map(&[("a", "2"), ("b", "3")]));
    assert_eq!(key.env.len(), 2);
}

#[test]
fn canonical_form_sorts_and_names_each_output_once() {
    let key = akey("M", &["z", "a"], &[("b", b"1"), ("a", b"2"), ("b", b"3")], &["y", "x", "y"]);
    assert_eq!(key.argv, strings(&["z", "a"]), "the order of arguments counts");
    assert_eq!(key.inputs, vec![tool("a", b"2"), tool("b", b"1"), tool("b", b"3")]);
    assert_eq!(key.outputs, strings(&["x", "y"]));
    assert_ne!(key.encode(), akey("M", &["a", "z"], &[("b", b"1"), ("a", b"2"), ("b", b"3")], &["x", "y"]).encode());
}

#[test]
fn paths_are_ordered_by_their_bytes() {
    let key = akey("M", &[], &[], &["é", "z", "a/b", "a", "Z"]);
    assert_eq!(key.outputs, strings(&["Z", "a", "a/b", "z", "é"]));
}

#[test]
fn request_carries_the_declared_action() {
    let key = akey("M", &["c", "in"], &[("in", b"v")], &["o"]);
    let r = key.to_request();
    assert_eq!(r.mnemonic, "M");
    assert_eq!(r.argv, strings(&["c", "in"]));
    assert_eq!(r.inputs.len(), 1);
    assert_eq!(r.inputs[0].path, "in");
    assert_eq!(r.inputs[0].content, b"v".to_vec());
    assert_eq!(r.outputs, strings(&["o"]));
}
