//! The content fingerprint of an action: eight dimensions, one canonical encoding, and a decoder that
//! fails closed. The bytes of the encoding are the identity that a cache of actions keys on.
use vstd::prelude::*;
use vstd::string::*;
use crate::codec;
use crate::codec::{enc_bytes, enc_str, put_list, take_list, Cur, Framed};
use crate::error;
use crate::error::{Error, ErrorView};
use crate::order;
use crate::order::{sort_by_path, sorted_set, HasPath, Pathed};
use crate::spawn::{InputArtifact, InputArtifactView, SpawnRequest, SpawnRequestView};
use crate::string_map;
use crate::string_map::StringMap;
use crate::target::{ActionTemplate, ActionTemplateView};
use crate::text;
use crate::text::{append_decimal, copy_bytes, copy_texts};

verus! {

// ---------------------------------------------------------------------------------------------
// Inputs and tools
// ---------------------------------------------------------------------------------------------

/// One resolved input or tool: its path and its bytes.
#[derive(PartialEq, Eq, Hash, PartialOrd, Ord, Debug)]
pub struct ActionInput {
    pub path: String,
    pub content: Vec<u8>,
}

/// What an [`ActionInput`] stands for.
pub struct ActionInputView {
    pub path: Seq<char>,
    pub content: Seq<u8>,
}

impl View for ActionInput {
    type V = ActionInputView;

    open spec fn view(&self) -> ActionInputView {
        ActionInputView { path: self.path@, content: self.content@ }
    }
}

impl Clone for ActionInput {
    fn clone(&self) -> (r: ActionInput)
        ensures
            r@ == self@,
    {
        ActionInput { path: self.path.clone(), content: copy_bytes(self.content.as_slice()) }
    }
}

impl HasPath for ActionInputView {
    open spec fn path_of(self) -> Seq<char> {
        self.path
    }
}

impl Pathed for ActionInput {
    fn path_text(&self) -> (r: &str) {
        self.path.as_str()
    }
}

impl Framed for ActionInput {
    open spec fn frame(v: ActionInputView) -> Seq<u8> {
        codec::text_frame(v.path) + codec::bytes_frame(v.content)
    }

    open spec fn at(b: Seq<u8>, i: int, what: Seq<char>) -> (
        Result<ActionInputView, ErrorView>,
        int,
    ) {
        match codec::text_at(b, i, what) {
            (Ok(path), j) => match codec::bytes_at(b, j, what) {
                (Ok(content), l) => (Ok(ActionInputView { path, content }), l),
                (Err(e), l) => (Err(e), l),
            },
            (Err(e), j) => (Err(e), j),
        }
    }

    fn put(&self, b: &mut Vec<u8>) {
        enc_str(b, self.path.as_str());
        enc_bytes(b, self.content.as_slice());
        assert(b@ =~= old(b)@ + Self::frame(self@));
    }

    fn take_from(c: &mut Cur<'_>) -> (r: Result<ActionInput, Error>) {
        match c.str() {
            Ok(path) => match c.bytes() {
                Ok(content) => Ok(ActionInput { path, content }),
                Err(e) => Err(e),
            },
            Err(e) => Err(e),
        }
    }

    proof fn law_frame_round_trips(v: ActionInputView, b: Seq<u8>, i: int, what: Seq<char>) {
        codec::lemma_at_split(b, i, codec::text_frame(v.path), codec::bytes_frame(v.content));
        codec::lemma_text_round_trips(b, i, v.path, what);
        codec::lemma_bytes_round_trip(b, i + codec::text_frame(v.path).len(), v.content, what);
    }

    proof fn law_frame_is_not_empty(v: ActionInputView) {
        codec::lemma_be_bytes_len(v.content.len(), 8);
    }

    proof fn law_frame_is_stable(b: Seq<u8>, c: Seq<u8>, i: int, what: Seq<char>) {
        codec::lemma_text_stable(b, c, i, what);
        match codec::text_at(b, i, what) {
            (Ok(_), j) => {
                codec::lemma_bytes_stable(b, c, j, what);
            },
            _ => {},
        }
    }

    proof fn law_frame_is_written(b: Seq<u8>, i: int, what: Seq<char>) {
        codec::lemma_text_is_framed(b, i, what);
        if let (Ok(path), j) = codec::text_at(b, i, what) {
            codec::lemma_bytes_are_framed(b, j, what);
            if let (Ok(content), _) = codec::bytes_at(b, j, what) {
                codec::lemma_at_join(b, i, codec::text_frame(path), codec::bytes_frame(content));
            }
        }
    }
}

// ---------------------------------------------------------------------------------------------
// The execution platform
// ---------------------------------------------------------------------------------------------

/// An execution platform: its label and the digest of what it resolved to, so that a platform that is
/// edited under its label is a different one.
#[derive(PartialEq, Eq, Hash, PartialOrd, Ord, Debug)]
pub struct ExecPlatformRef {
    pub label: String,
    pub resolved_digest: Vec<u8>,
}

/// What an [`ExecPlatformRef`] stands for.
pub struct ExecPlatformRefView {
    pub label: Seq<char>,
    pub resolved_digest: Seq<u8>,
}

impl View for ExecPlatformRef {
    type V = ExecPlatformRefView;

    open spec fn view(&self) -> ExecPlatformRefView {
        ExecPlatformRefView { label: self.label@, resolved_digest: self.resolved_digest@ }
    }
}

impl Clone for ExecPlatformRef {
    fn clone(&self) -> (r: ExecPlatformRef)
        ensures
            r@ == self@,
    {
        ExecPlatformRef {
            label: self.label.clone(),
            resolved_digest: copy_bytes(self.resolved_digest.as_slice()),
        }
    }
}

/// What an optional platform stands for.
pub open spec fn platform_view(p: Option<ExecPlatformRef>) -> Option<ExecPlatformRefView> {
    match p {
        None => None,
        Some(r) => Some(r@),
    }
}

/// A platform: the byte 0 for none, or the byte 1, the label and the digest.
pub open spec fn platform_frame(p: Option<ExecPlatformRefView>) -> Seq<u8> {
    match p {
        None => seq![0u8],
        Some(r) => seq![1u8] + codec::text_frame(r.label) + codec::bytes_frame(r.resolved_digest),
    }
}

/// The platform at position `i`, and the position after the attempt.
pub open spec fn platform_at(b: Seq<u8>, i: int, what: Seq<char>) -> (
    Result<Option<ExecPlatformRefView>, ErrorView>,
    int,
) {
    match codec::take_at(b, i, 1, what) {
        (Ok(tag), j) => if tag[0] == 0 {
            (Ok(None), j)
        } else if tag[0] == 1 {
            match codec::text_at(b, j, what) {
                (Ok(label), k) => match codec::bytes_at(b, k, what) {
                    (Ok(resolved_digest), l) => (
                        Ok(Some(ExecPlatformRefView { label, resolved_digest })),
                        l,
                    ),
                    (Err(e), l) => (Err(e), l),
                },
                (Err(e), k) => (Err(e), k),
            }
        } else {
            (
                Err(
                    codec::bad(
                        what,
                        "bad exec_platform tag "@ + text::decimal(tag[0] as nat),
                    ),
                ),
                j,
            )
        },
        (Err(e), j) => (Err(e), j),
    }
}

proof fn lemma_platform_round_trips(
    p: Option<ExecPlatformRefView>,
    b: Seq<u8>,
    i: int,
    what: Seq<char>,
)
    requires
        codec::is_at(b, i, platform_frame(p)),
        b.len() <= usize::MAX,
    ensures
        platform_at(b, i, what) == (
            Ok::<Option<ExecPlatformRefView>, ErrorView>(p),
            i + platform_frame(p).len(),
        ),
{
    let f = platform_frame(p);
    assert(b.subrange(i, i + f.len())[0] == f[0]);
    assert(b.subrange(i, i + 1)[0] == f[0]);
    match p {
        None => {},
        Some(r) => {
            let label = codec::text_frame(r.label);
            let digest = codec::bytes_frame(r.resolved_digest);
            codec::lemma_at_split(b, i, seq![1u8] + label, digest);
            codec::lemma_at_split(b, i, seq![1u8], label);
            codec::lemma_text_round_trips(b, i + 1, r.label, what);
            codec::lemma_bytes_round_trip(b, i + 1 + label.len(), r.resolved_digest, what);
        },
    }
}

proof fn lemma_platform_stable(b: Seq<u8>, c: Seq<u8>, i: int, what: Seq<char>)
    requires
        0 <= i <= b.len(),
        codec::is_prefix(b, c),
    ensures
        codec::is_stable(platform_at(b, i, what), platform_at(c, i, what), i, b.len() as int, what),
{
    codec::lemma_take_stable(b, c, i, 1, what);
    match codec::take_at(b, i, 1, what) {
        (Ok(tag), j) => if tag[0] == 1 {
            codec::lemma_text_stable(b, c, j, what);
            match codec::text_at(b, j, what) {
                (Ok(_), k) => {
                    codec::lemma_bytes_stable(b, c, k, what);
                },
                _ => {},
            }
        },
        _ => {},
    }
}

/// Appends a platform.
fn put_platform(b: &mut Vec<u8>, p: &Option<ExecPlatformRef>)
    ensures
        final(b)@ == old(b)@ + platform_frame(platform_view(*p)),
{
    match p {
        None => {
            b.push(0);
        },
        Some(r) => {
            b.push(1);
            enc_str(b, r.label.as_str());
            enc_bytes(b, r.resolved_digest.as_slice());
        },
    }
    assert(b@ =~= old(b)@ + platform_frame(platform_view(*p)));
}

/// The next platform.
fn take_platform(c: &mut Cur<'_>) -> (r: Result<Option<ExecPlatformRef>, Error>)
    requires
        old(c)@.wf(),
    ensures
        ({
            let (res, pos) = platform_at(old(c)@.bytes, old(c)@.pos, old(c)@.what);
            &&& match r {
                Ok(p) => res == Ok::<Option<ExecPlatformRefView>, ErrorView>(platform_view(p)),
                Err(e) => res == Err::<Option<ExecPlatformRefView>, ErrorView>(e@),
            }
            &&& final(c)@ == old(c)@.moved(pos)
            &&& final(c)@.wf()
        }),
{
    let tag: u8 = match c.byte() {
        Ok(t) => t,
        Err(e) => return Err(e),
    };
    if tag == 0 {
        Ok(None)
    } else if tag == 1 {
        match c.str() {
            Ok(label) => match c.bytes() {
                Ok(resolved_digest) => Ok(Some(ExecPlatformRef { label, resolved_digest })),
                Err(e) => Err(e),
            },
            Err(e) => Err(e),
        }
    } else {
        let mut detail = "bad exec_platform tag ".to_owned();
        append_decimal(&mut detail, tag as u64);
        Err(c.err(detail.as_str()))
    }
}

// ---------------------------------------------------------------------------------------------
// The fingerprint
// ---------------------------------------------------------------------------------------------

/// The content fingerprint of an action. Two actions share a fingerprint if and only if all eight
/// dimensions are equal: the order of `argv` counts, that of the environment, of tools, inputs and
/// outputs does not.
#[derive(PartialEq, Eq, Hash, PartialOrd, Ord, Debug)]
pub struct ActionKey {
    pub mnemonic: String,
    pub argv: Vec<String>,
    /// The declared environment, which is also that of the spawn.
    pub env: StringMap,
    /// The inputs that are tools.
    pub tools: Vec<ActionInput>,
    pub inputs: Vec<ActionInput>,
    /// The outputs that the strategy has to produce.
    pub outputs: Vec<String>,
    /// The execution platform; none stands for the host.
    pub exec_platform: Option<ExecPlatformRef>,
    pub exec_properties: StringMap,
}

/// What an [`ActionKey`] stands for.
pub struct ActionKeyView {
    pub mnemonic: Seq<char>,
    pub argv: Seq<Seq<char>>,
    pub env: Seq<(Seq<char>, Seq<char>)>,
    pub tools: Seq<ActionInputView>,
    pub inputs: Seq<ActionInputView>,
    pub outputs: Seq<Seq<char>>,
    pub exec_platform: Option<ExecPlatformRefView>,
    pub exec_properties: Seq<(Seq<char>, Seq<char>)>,
}

impl View for ActionKey {
    type V = ActionKeyView;

    open spec fn view(&self) -> ActionKeyView {
        ActionKeyView {
            mnemonic: self.mnemonic@,
            argv: text::texts(self.argv@),
            env: self.env@,
            tools: order::views(self.tools@),
            inputs: order::views(self.inputs@),
            outputs: text::texts(self.outputs@),
            exec_platform: platform_view(self.exec_platform),
            exec_properties: self.exec_properties@,
        }
    }
}

impl ActionKeyView {
    /// The two maps are maps: their entries stand in the order of their keys.
    pub open spec fn wf(self) -> bool {
        string_map::ascending_keys(self.env) && string_map::ascending_keys(self.exec_properties)
    }
}

/// The first five frames: mnemonic, argv, environment, inputs and outputs.
pub open spec fn five_frames(k: ActionKeyView) -> Seq<u8> {
    codec::text_frame(k.mnemonic) + codec::list_frame::<String>(k.argv) + codec::list_frame::<
        (String, String),
    >(k.env) + codec::list_frame::<ActionInput>(k.inputs) + codec::list_frame::<String>(k.outputs)
}

/// The three frames behind them: tools, platform and execution properties.
pub open spec fn widened_frames(k: ActionKeyView) -> Seq<u8> {
    codec::list_frame::<ActionInput>(k.tools) + platform_frame(k.exec_platform)
        + codec::list_frame::<(String, String)>(k.exec_properties)
}

/// The canonical encoding of a fingerprint.
pub open spec fn fingerprint(k: ActionKeyView) -> Seq<u8> {
    five_frames(k) + widened_frames(k)
}

/// What the fingerprint decoder calls its input.
pub open spec fn fingerprint_what() -> Seq<char> {
    "ActionKey fingerprint"@
}

/// The five first frames at position `i` (in the order mnemonic, argv, environment, inputs, outputs),
/// and the position after the attempt.
pub open spec fn five_at(b: Seq<u8>, i: int) -> (
    Result<
        (
            Seq<char>,
            Seq<Seq<char>>,
            Seq<(Seq<char>, Seq<char>)>,
            Seq<ActionInputView>,
            Seq<Seq<char>>,
        ),
        ErrorView,
    >,
    int,
) {
    let w = fingerprint_what();
    match codec::text_at(b, i, w) {
        (Err(e), p) => (Err(e), p),
        (Ok(mnemonic), p) => match codec::list_at::<String>(b, p, w) {
            (Err(e), p) => (Err(e), p),
            (Ok(argv), p) => match string_map::map_at(b, p, w) {
                (Err(e), p) => (Err(e), p),
                (Ok(env), p) => match codec::list_at::<ActionInput>(b, p, w) {
                    (Err(e), p) => (Err(e), p),
                    (Ok(inputs), p) => match codec::list_at::<String>(b, p, w) {
                        (Err(e), p) => (Err(e), p),
                        (Ok(outputs), p) => (Ok((mnemonic, argv, env, inputs, outputs)), p),
                    },
                },
            },
        },
    }
}

/// The three last frames at position `i` (tools, platform, execution properties), and the position
/// after the attempt.
pub open spec fn widened_at(b: Seq<u8>, i: int) -> (
    Result<
        (Seq<ActionInputView>, Option<ExecPlatformRefView>, Seq<(Seq<char>, Seq<char>)>),
        ErrorView,
    >,
    int,
) {
    let w = fingerprint_what();
    match codec::list_at::<ActionInput>(b, i, w) {
        (Err(e), p) => (Err(e), p),
        (Ok(tools), p) => match platform_at(b, p, w) {
            (Err(e), p) => (Err(e), p),
            (Ok(platform), p) => match string_map::map_at(b, p, w) {
                (Err(e), p) => (Err(e), p),
                (Ok(properties), p) => (Ok((tools, platform, properties)), p),
            },
        },
    }
}

/// The fingerprint at position `i`, and the position after the attempt.
pub open spec fn fingerprint_at(b: Seq<u8>, i: int) -> (Result<ActionKeyView, ErrorView>, int) {
    match five_at(b, i) {
        (Err(e), p) => (Err(e), p),
        (Ok((mnemonic, argv, env, inputs, outputs)), p) => match widened_at(b, p) {
            (Err(e), p) => (Err(e), p),
            (Ok((tools, exec_platform, exec_properties)), p) => (
                Ok(
                    ActionKeyView {
                        mnemonic,
                        argv,
                        env,
                        tools,
                        inputs,
                        outputs,
                        exec_platform,
                        exec_properties,
                    },
                ),
                p,
            ),
        },
    }
}

/// The fingerprint that a byte string encodes as a whole.
pub open spec fn decoded_fingerprint(b: Seq<u8>) -> Result<ActionKeyView, ErrorView> {
    match fingerprint_at(b, 0) {
        (Err(e), _) => Err(e),
        (Ok(k), p) => match codec::end_at(b, p, fingerprint_what()) {
            Err(e) => Err(e),
            Ok(_) => Ok(k),
        },
    }
}

/// `k` is the canonical form of what was declared: tools and inputs sorted by path, outputs sorted and
/// each kept once, all else as it is.
pub open spec fn canonical_form_of(
    k: ActionKeyView,
    declared: ActionKeyView,
) -> bool {
    &&& k.mnemonic == declared.mnemonic
    &&& k.argv == declared.argv
    &&& k.env == declared.env
    &&& order::stable_sort_of(declared.tools, k.tools)
    &&& order::stable_sort_of(declared.inputs, k.inputs)
    &&& order::sorted_set_of(declared.outputs, k.outputs)
    &&& k.exec_platform == declared.exec_platform
    &&& k.exec_properties == declared.exec_properties
}

/// The request that a fingerprint runs as.
pub open spec fn request_of(k: ActionKeyView) -> SpawnRequestView {
    SpawnRequestView {
        mnemonic: k.mnemonic,
        argv: k.argv,
        env: k.env,
        inputs: k.inputs.map_values(
            |i: ActionInputView| InputArtifactView { path: i.path, content: i.content },
        ),
        outputs: k.outputs,
    }
}

impl ActionKey {
    /// The fingerprint of an action in canonical form.
    pub fn new(
        mnemonic: String,
        argv: Vec<String>,
        env: StringMap,
        tools: Vec<ActionInput>,
        inputs: Vec<ActionInput>,
        outputs: Vec<String>,
        exec_platform: Option<ExecPlatformRef>,
        exec_properties: StringMap,
    ) -> (k: ActionKey)
        ensures
            canonical_form_of(
                k@,
                (ActionKeyView {
                    mnemonic: mnemonic@,
                    argv: text::texts(argv@),
                    env: env@,
                    tools: order::views(tools@),
                    inputs: order::views(inputs@),
                    outputs: text::texts(outputs@),
                    exec_platform: platform_view(exec_platform),
                    exec_properties: exec_properties@,
                }),
            ),
            k@.wf(),
    {
        proof {
            use_type_invariant(&env);
            use_type_invariant(&exec_properties);
        }
        ActionKey {
            mnemonic,
            argv,
            env,
            tools: sort_by_path(tools),
            inputs: sort_by_path(inputs),
            outputs: sorted_set(outputs),
            exec_platform,
            exec_properties,
        }
    }

    /// The canonical encoding.
    pub fn encode(&self) -> (b: Vec<u8>)
        ensures
            b@ == fingerprint(self@),
            self@.wf(),
    {
        proof {
            use_type_invariant(&self.env);
            use_type_invariant(&self.exec_properties);
        }
        let mut b: Vec<u8> = Vec::new();
        enc_str(&mut b, self.mnemonic.as_str());
        put_list(&mut b, &self.argv);
        self.env.put(&mut b);
        put_list(&mut b, &self.inputs);
        put_list(&mut b, &self.outputs);
        assert(b@ =~= five_frames(self@));
        put_list(&mut b, &self.tools);
        put_platform(&mut b, &self.exec_platform);
        self.exec_properties.put(&mut b);
        assert(b@ =~= fingerprint(self@));
        b
    }

    /// The request that the action runs as: its environment is that of the fingerprint.
    pub fn to_request(&self) -> (r: SpawnRequest)
        ensures
            r@ == request_of(self@),
    {
        let mut inputs: Vec<InputArtifact> = Vec::new();
        let n: usize = self.inputs.len();
        for i in 0..n
            invariant
                n == self.inputs@.len(),
                order::views(inputs@) == request_of(self@).inputs.take(i as int),
        {
            let ghost before = order::views(inputs@);
            let item = InputArtifact {
                path: self.inputs[i].path.clone(),
                content: copy_bytes(self.inputs[i].content.as_slice()),
            };
            inputs.push(item);
            assert(order::views(inputs@) =~= before.push(item@));
            assert(self@.inputs[i as int] == self.inputs@[i as int]@);
            assert(request_of(self@).inputs[i as int] == item@);
            assert(before.push(item@) =~= request_of(self@).inputs.take(i + 1));
        }
        assert(order::views(inputs@) =~= request_of(self@).inputs);
        SpawnRequest {
            mnemonic: self.mnemonic.clone(),
            argv: copy_texts(&self.argv),
            env: self.env.clone(),
            inputs,
            outputs: copy_texts(&self.outputs),
        }
    }
}

impl Clone for ActionKey {
    fn clone(&self) -> (r: ActionKey)
        ensures
            r@ == self@,
    {
        ActionKey {
            mnemonic: self.mnemonic.clone(),
            argv: copy_texts(&self.argv),
            env: self.env.clone(),
            tools: copy_inputs(&self.tools),
            inputs: copy_inputs(&self.inputs),
            outputs: copy_texts(&self.outputs),
            exec_platform: match &self.exec_platform {
                None => None,
                Some(p) => Some(p.clone()),
            },
            exec_properties: self.exec_properties.clone(),
        }
    }
}

/// A copy of a list of inputs.
fn copy_inputs(list: &Vec<ActionInput>) -> (r: Vec<ActionInput>)
    ensures
        order::views(r@) == order::views(list@),
{
    let mut r: Vec<ActionInput> = Vec::new();
    let n: usize = list.len();
    for i in 0..n
        invariant
            n == list@.len(),
            order::views(r@) == order::views(list@).take(i as int),
    {
        let ghost before = order::views(r@);
        let item = list[i].clone();
        r.push(item);
        assert(order::views(r@) =~= before.push(item@));
        assert(order::views(list@)[i as int] == item@);
        assert(before.push(item@) =~= order::views(list@).take(i + 1));
    }
    assert(order::views(r@) =~= order::views(list@));
    r
}

/// Decodes the canonical encoding of a fingerprint. Bytes that are malformed, truncated, followed by
/// others, or hold only the first five frames are a typed `Invalid`.
pub fn decode_action_key(bytes: &[u8]) -> (r: Result<ActionKey, Error>)
    ensures
        error::result_view(r) == decoded_fingerprint(bytes@),
        r matches Ok(k) ==> k@.wf(),
{
    let mut c = Cur::new(bytes, "ActionKey fingerprint");
    let mnemonic = match c.str() {
        Ok(v) => v,
        Err(e) => return Err(e),
    };
    let argv = match take_list::<String>(&mut c) {
        Ok(v) => v,
        Err(e) => return Err(e),
    };
    let env = match StringMap::take_from(&mut c) {
        Ok(v) => v,
        Err(e) => return Err(e),
    };
    let inputs = match take_list::<ActionInput>(&mut c) {
        Ok(v) => v,
        Err(e) => return Err(e),
    };
    let outputs = match take_list::<String>(&mut c) {
        Ok(v) => v,
        Err(e) => return Err(e),
    };
    let tools = match take_list::<ActionInput>(&mut c) {
        Ok(v) => v,
        Err(e) => return Err(e),
    };
    let exec_platform = match take_platform(&mut c) {
        Ok(v) => v,
        Err(e) => return Err(e),
    };
    let exec_properties = match StringMap::take_from(&mut c) {
        Ok(v) => v,
        Err(e) => return Err(e),
    };
    match c.finish() {
        Ok(_) => {},
        Err(e) => return Err(e),
    }
    proof {
        use_type_invariant(&env);
        use_type_invariant(&exec_properties);
    }
    Ok(
        ActionKey {
            mnemonic,
            argv,
            env,
            tools,
            inputs,
            outputs,
            exec_platform,
            exec_properties,
        },
    )
}

/// What a template declares together with its resolved inputs: no tools, no platform and no execution
/// properties.
pub open spec fn declared_by_template(
    t: ActionTemplateView,
    inputs: Seq<ActionInputView>,
) -> ActionKeyView {
    ActionKeyView {
        mnemonic: t.mnemonic,
        argv: t.argv,
        env: string_map::collected(t.env),
        tools: Seq::empty(),
        inputs,
        outputs: t.outputs,
        exec_platform: None,
        exec_properties: Seq::empty(),
    }
}

/// The fingerprint of a template and its resolved inputs.
pub fn action_key_from_template(t: &ActionTemplate, inputs: Vec<ActionInput>) -> (k: ActionKey)
    ensures
        canonical_form_of(k@, declared_by_template(t@, order::views(inputs@))),
        k@.wf(),
{
    let tools: Vec<ActionInput> = Vec::new();
    assert(order::views(tools@) =~= Seq::empty());
    ActionKey::new(
        t.mnemonic.clone(),
        copy_texts(&t.argv),
        StringMap::from_pairs(&t.env),
        tools,
        inputs,
        copy_texts(&t.outputs),
        None,
        StringMap::new(),
    )
}

// ---------------------------------------------------------------------------------------------
// Laws
// ---------------------------------------------------------------------------------------------

proof fn lemma_map_round_trips(
    m: Seq<(Seq<char>, Seq<char>)>,
    b: Seq<u8>,
    i: int,
    what: Seq<char>,
)
    requires
        codec::is_at(b, i, codec::list_frame::<(String, String)>(m)),
        b.len() <= usize::MAX,
    ensures
        string_map::map_at(b, i, what) == (
            Ok::<Seq<(Seq<char>, Seq<char>)>, ErrorView>(string_map::collected(m)),
            i + codec::list_frame::<(String, String)>(m).len(),
        ),
{
    codec::lemma_list_round_trips::<(String, String)>(m, b, i, what);
}

/// A fingerprint whose entries of the two maps were put into maps.
spec fn with_maps(k: ActionKeyView) -> ActionKeyView {
    ActionKeyView {
        mnemonic: k.mnemonic,
        argv: k.argv,
        env: string_map::collected(k.env),
        tools: k.tools,
        inputs: k.inputs,
        outputs: k.outputs,
        exec_platform: k.exec_platform,
        exec_properties: string_map::collected(k.exec_properties),
    }
}

proof fn lemma_with_maps(k: ActionKeyView)
    requires
        k.wf(),
    ensures
        with_maps(k) == k,
{
    string_map::law_collected_keeps_ascending_entries(k.env);
    string_map::law_collected_keeps_ascending_entries(k.exec_properties);
}

#[verifier::spinoff_prover]
#[verifier::rlimit(40)]
proof fn lemma_five_round_trip(k: ActionKeyView, b: Seq<u8>, i: int)
    requires
        codec::is_at(b, i, five_frames(k)),
        b.len() <= usize::MAX,
    ensures
        five_at(b, i).0 == Ok::<_, ErrorView>(
            (k.mnemonic, k.argv, string_map::collected(k.env), k.inputs, k.outputs),
        ),
        five_at(b, i).1 == i + five_frames(k).len(),
{
    let w = fingerprint_what();
    let f1 = codec::text_frame(k.mnemonic);
    let f2 = codec::list_frame::<String>(k.argv);
    let f3 = codec::list_frame::<(String, String)>(k.env);
    let f4 = codec::list_frame::<ActionInput>(k.inputs);
    let f5 = codec::list_frame::<String>(k.outputs);
    codec::lemma_at_split(b, i, f1 + f2 + f3 + f4, f5);
    codec::lemma_at_split(b, i, f1 + f2 + f3, f4);
    codec::lemma_at_split(b, i, f1 + f2, f3);
    codec::lemma_at_split(b, i, f1, f2);
    codec::lemma_text_round_trips(b, i, k.mnemonic, w);
    codec::lemma_list_round_trips::<String>(k.argv, b, i + f1.len(), w);
    lemma_map_round_trips(k.env, b, i + (f1 + f2).len(), w);
    codec::lemma_list_round_trips::<ActionInput>(k.inputs, b, i + (f1 + f2 + f3).len(), w);
    codec::lemma_list_round_trips::<String>(k.outputs, b, i + (f1 + f2 + f3 + f4).len(), w);
}

#[verifier::spinoff_prover]
#[verifier::rlimit(40)]
proof fn lemma_widened_round_trip(k: ActionKeyView, b: Seq<u8>, i: int)
    requires
        codec::is_at(b, i, widened_frames(k)),
        b.len() <= usize::MAX,
    ensures
        widened_at(b, i).0 == Ok::<_, ErrorView>(
            (k.tools, k.exec_platform, string_map::collected(k.exec_properties)),
        ),
        widened_at(b, i).1 == i + widened_frames(k).len(),
{
    let w = fingerprint_what();
    let f1 = codec::list_frame::<ActionInput>(k.tools);
    let f2 = platform_frame(k.exec_platform);
    let f3 = codec::list_frame::<(String, String)>(k.exec_properties);
    codec::lemma_at_split(b, i, f1 + f2, f3);
    codec::lemma_at_split(b, i, f1, f2);
    codec::lemma_list_round_trips::<ActionInput>(k.tools, b, i, w);
    lemma_platform_round_trips(k.exec_platform, b, i + f1.len(), w);
    lemma_map_round_trips(k.exec_properties, b, i + (f1 + f2).len(), w);
}

#[verifier::spinoff_prover]
#[verifier::rlimit(40)]
proof fn lemma_fingerprint_round_trips(k: ActionKeyView, b: Seq<u8>, i: int)
    requires
        codec::is_at(b, i, fingerprint(k)),
        b.len() <= usize::MAX,
    ensures
        fingerprint_at(b, i) == (
            Ok::<ActionKeyView, ErrorView>(with_maps(k)),
            i + fingerprint(k).len(),
        ),
{
    codec::lemma_at_split(b, i, five_frames(k), widened_frames(k));
    lemma_five_round_trip(k, b, i);
    lemma_widened_round_trip(k, b, i + five_frames(k).len());
}

#[verifier::spinoff_prover]
#[verifier::rlimit(40)]
proof fn lemma_five_stable(b: Seq<u8>, c: Seq<u8>, i: int)
    requires
        0 <= i <= b.len(),
        codec::is_prefix(b, c),
    ensures
        codec::is_stable(five_at(b, i), five_at(c, i), i, b.len() as int, fingerprint_what()),
{
    let w = fingerprint_what();
    codec::lemma_text_stable(b, c, i, w);
    if let (Ok(_), p) = codec::text_at(b, i, w) {
        codec::lemma_list_stable::<String>(b, c, p, w);
        if let (Ok(_), p) = codec::list_at::<String>(b, p, w) {
            codec::lemma_list_stable::<(String, String)>(b, c, p, w);
            if let (Ok(_), p) = string_map::map_at(b, p, w) {
                codec::lemma_list_stable::<ActionInput>(b, c, p, w);
                if let (Ok(_), p) = codec::list_at::<ActionInput>(b, p, w) {
                    codec::lemma_list_stable::<String>(b, c, p, w);
                }
            }
        }
    }
}

#[verifier::spinoff_prover]
#[verifier::rlimit(40)]
proof fn lemma_widened_stable(b: Seq<u8>, c: Seq<u8>, i: int)
    requires
        0 <= i <= b.len(),
        codec::is_prefix(b, c),
    ensures
        codec::is_stable(widened_at(b, i), widened_at(c, i), i, b.len() as int, fingerprint_what()),
{
    let w = fingerprint_what();
    codec::lemma_list_stable::<ActionInput>(b, c, i, w);
    if let (Ok(_), p) = codec::list_at::<ActionInput>(b, i, w) {
        lemma_platform_stable(b, c, p, w);
        if let (Ok(_), p) = platform_at(b, p, w) {
            codec::lemma_list_stable::<(String, String)>(b, c, p, w);
        }
    }
}

#[verifier::spinoff_prover]
#[verifier::rlimit(40)]
proof fn lemma_fingerprint_stable(b: Seq<u8>, c: Seq<u8>, i: int)
    requires
        0 <= i <= b.len(),
        codec::is_prefix(b, c),
    ensures
        codec::is_stable(
            fingerprint_at(b, i),
            fingerprint_at(c, i),
            i,
            b.len() as int,
            fingerprint_what(),
        ),
{
    lemma_five_stable(b, c, i);
    if let (Ok(_), p) = five_at(b, i) {
        lemma_widened_stable(b, c, p);
    }
}

/// The encoding is lossless: decoding the encoding of a fingerprint gives the fingerprint, inputs and
/// their bytes included, and encoding that again gives the same bytes.
#[verifier::spinoff_prover]
#[verifier::rlimit(40)]
pub proof fn law_fingerprint_round_trips(k: ActionKeyView)
    requires
        k.wf(),
        fingerprint(k).len() <= usize::MAX,
    ensures
        decoded_fingerprint(fingerprint(k)) == Ok::<ActionKeyView, ErrorView>(k),
        decoded_fingerprint(fingerprint(k)) matches Ok(d) && fingerprint(d) == fingerprint(k),
{
    codec::lemma_whole_is_at(fingerprint(k));
    lemma_fingerprint_round_trips(k, fingerprint(k), 0);
    lemma_with_maps(k);
}

/// Two actions share a fingerprint if and only if all eight dimensions are equal: a change of the
/// mnemonic, of an argument, of an environment value, of a tool, of an input's bytes, of an output, of
/// the platform or of an execution property is another fingerprint.
#[verifier::spinoff_prover]
#[verifier::rlimit(40)]
pub proof fn law_fingerprint_identifies_the_action(a: ActionKeyView, b: ActionKeyView)
    requires
        a.wf(),
        b.wf(),
        fingerprint(a).len() <= usize::MAX,
        fingerprint(b).len() <= usize::MAX,
    ensures
        fingerprint(a) == fingerprint(b) <==> a == b,
{
    law_fingerprint_round_trips(a);
    law_fingerprint_round_trips(b);
}

/// Every failure to decode is an `Invalid` that names the fingerprint.
#[verifier::spinoff_prover]
#[verifier::rlimit(40)]
pub proof fn law_fingerprint_failures_are_typed(b: Seq<u8>)
    ensures
        decoded_fingerprint(b) matches Err(e) ==> e matches ErrorView::Invalid { what, .. } && what
            == "ActionKey fingerprint"@,
{
    assert(b.take(b.len() as int) =~= b);
    lemma_fingerprint_stable(b, b, 0);
}

/// A fingerprint that was cut off anywhere, or that other bytes follow, does not decode: the one is
/// truncated, the other has trailing bytes.
#[verifier::spinoff_prover]
#[verifier::rlimit(40)]
pub proof fn law_fingerprint_is_all_or_nothing(k: ActionKeyView, cut: int, more: Seq<u8>)
    requires
        k.wf(),
        fingerprint(k).len() <= usize::MAX,
        0 <= cut < fingerprint(k).len(),
        0 < more.len(),
        fingerprint(k).len() + more.len() <= usize::MAX,
    ensures
        decoded_fingerprint(fingerprint(k).take(cut)) == Err::<ActionKeyView, ErrorView>(
            ErrorView::Invalid { what: "ActionKey fingerprint"@, detail: "truncated"@ },
        ),
        decoded_fingerprint(fingerprint(k) + more) == Err::<ActionKeyView, ErrorView>(
            ErrorView::Invalid { what: "ActionKey fingerprint"@, detail: "trailing bytes"@ },
        ),
{
    let whole = fingerprint(k);
    let part = whole.take(cut);
    codec::lemma_whole_is_at(whole);
    lemma_fingerprint_round_trips(k, whole, 0);
    assert(whole.take(part.len() as int) =~= part);
    lemma_fingerprint_stable(part, whole, 0);
    law_fingerprint_failures_are_typed(part);
    let longer = whole + more;
    assert(longer.subrange(0, whole.len() as int) =~= whole);
    lemma_fingerprint_round_trips(k, longer, 0);
}

/// The three later frames are appended to the first five, whose bytes they leave as they are; and the
/// first five frames alone do not decode.
#[verifier::spinoff_prover]
#[verifier::rlimit(40)]
pub proof fn law_five_frames_are_no_fingerprint(k: ActionKeyView)
    requires
        k.wf(),
        fingerprint(k).len() <= usize::MAX,
    ensures
        five_frames(k).len() < fingerprint(k).len(),
        fingerprint(k).take(five_frames(k).len() as int) == five_frames(k),
        decoded_fingerprint(five_frames(k)) == Err::<ActionKeyView, ErrorView>(
            ErrorView::Invalid { what: "ActionKey fingerprint"@, detail: "truncated"@ },
        ),
{
    let whole = fingerprint(k);
    let n = five_frames(k).len() as int;
    codec::lemma_be_bytes_len(k.tools.len(), 8);
    assert(whole.take(n) =~= five_frames(k));
    codec::lemma_whole_is_at(whole);
    lemma_fingerprint_round_trips(k, whole, 0);
    lemma_fingerprint_stable(five_frames(k), whole, 0);
}

/// The order of declaration of tools, inputs and outputs is not seen, nor how often an output is
/// declared: two declarations that hold the same tools and the same inputs, no two of them with one
/// path, and declare the same set of outputs, have one fingerprint.
pub proof fn law_declaration_order_is_not_seen(
    a: ActionKeyView,
    b: ActionKeyView,
    key_a: ActionKeyView,
    key_b: ActionKeyView,
)
    requires
        canonical_form_of(key_a, a),
        canonical_form_of(key_b, b),
        a.mnemonic == b.mnemonic,
        a.argv == b.argv,
        a.env == b.env,
        a.exec_platform == b.exec_platform,
        a.exec_properties == b.exec_properties,
        a.tools.to_multiset() == b.tools.to_multiset(),
        order::distinct_paths(a.tools),
        order::distinct_paths(b.tools),
        a.inputs.to_multiset() == b.inputs.to_multiset(),
        order::distinct_paths(a.inputs),
        order::distinct_paths(b.inputs),
        forall|t: Seq<char>| #[trigger] a.outputs.contains(t) <==> b.outputs.contains(t),
    ensures
        key_a == key_b,
        fingerprint(key_a) == fingerprint(key_b),
{
    order::law_sort_forgets_declaration_order(a.tools, b.tools, key_a.tools, key_b.tools);
    order::law_sort_forgets_declaration_order(a.inputs, b.inputs, key_a.inputs, key_b.inputs);
    assert forall|t: Seq<char>| #[trigger]
        key_a.outputs.contains(t) <==> key_b.outputs.contains(t) by {
        assert(a.outputs.contains(t) <==> b.outputs.contains(t));
        assert(key_b.outputs.contains(t) <==> b.outputs.contains(t));
    }
    order::law_sorted_set_is_unique(key_a.outputs, key_b.outputs);
}

/// The fingerprint is a function of what is declared: one declaration has one canonical form.
pub proof fn law_canonical_form_is_unique(
    declared: ActionKeyView,
    key_a: ActionKeyView,
    key_b: ActionKeyView,
)
    requires
        canonical_form_of(key_a, declared),
        canonical_form_of(key_b, declared),
    ensures
        key_a == key_b,
{
    assert forall|p: Seq<char>| #[trigger]
        order::with_path(key_a.tools, p) == order::with_path(key_b.tools, p) by {
        assert(order::with_path(key_b.tools, p) == order::with_path(declared.tools, p));
    }
    assert forall|p: Seq<char>| #[trigger]
        order::with_path(key_a.inputs, p) == order::with_path(key_b.inputs, p) by {
        assert(order::with_path(key_b.inputs, p) == order::with_path(declared.inputs, p));
    }
    order::law_stable_sort_is_unique(key_a.tools, key_b.tools);
    order::law_stable_sort_is_unique(key_a.inputs, key_b.inputs);
    assert forall|t: Seq<char>| #[trigger]
        key_a.outputs.contains(t) <==> key_b.outputs.contains(t) by {
        assert(key_b.outputs.contains(t) <==> declared.outputs.contains(t));
    }
    order::law_sorted_set_is_unique(key_a.outputs, key_b.outputs);
}

/// What a template cannot declare has one fixed notation: its fingerprint ends in the empty list of
/// tools, the missing platform and the empty list of execution properties, which are seventeen zero bytes.
pub proof fn law_template_fingerprint_ends_in_zeros(
    t: ActionTemplateView,
    inputs: Seq<ActionInputView>,
    key: ActionKeyView,
)
    requires
        canonical_form_of(key, declared_by_template(t, inputs)),
    ensures
        fingerprint(key) == five_frames(key) + Seq::new(17, |i: int| 0u8),
{
    reveal_with_fuel(codec::be_bytes, 9);
    assert(key.tools =~= Seq::empty());
    assert(widened_frames(key) =~= Seq::new(17, |i: int| 0u8));
}

/// The environment of the spawn is that of the fingerprint, which is the declared one: there is no
/// second channel.
pub proof fn law_spawn_environment_is_the_declared_one(declared: ActionKeyView, key: ActionKeyView)
    requires
        canonical_form_of(key, declared),
    ensures
        request_of(key).env == key.env,
        key.env == declared.env,
{
}

// ---------------------------------------------------------------------------------------------
// Laws of the fields and of the layout
// ---------------------------------------------------------------------------------------------

/// Inputs, platforms and fingerprints are seen as what their fields hold.
pub proof fn law_fingerprints_are_their_fields(i: ActionInput, p: ExecPlatformRef, k: ActionKey)
    ensures
        i@.path == i.path@ && i@.content == i.content@ && i@.path_of() == i.path@,
        p@.label == p.label@ && p@.resolved_digest == p.resolved_digest@,
        k@.mnemonic == k.mnemonic@ && k@.env == k.env@ && k@.exec_properties == k.exec_properties@,
        k@.argv.len() == k.argv@.len() && k@.tools.len() == k.tools@.len(),
        k@.inputs.len() == k.inputs@.len() && k@.outputs.len() == k.outputs@.len(),
        forall|n: int| 0 <= n < k.argv@.len() ==> #[trigger] k@.argv[n] == k.argv@[n]@,
        forall|n: int| 0 <= n < k.tools@.len() ==> #[trigger] k@.tools[n] == k.tools@[n]@,
        forall|n: int| 0 <= n < k.inputs@.len() ==> #[trigger] k@.inputs[n] == k.inputs@[n]@,
        forall|n: int| 0 <= n < k.outputs@.len() ==> #[trigger] k@.outputs[n] == k.outputs@[n]@,
        match k.exec_platform {
            None => k@.exec_platform is None,
            Some(r) => k@.exec_platform == Some(r@),
        },
{
}

/// The bytes of a fingerprint are the frames of its dimensions, each once: mnemonic, arguments,
/// environment, inputs, outputs, tools, platform and execution properties.
pub proof fn law_fingerprint_is_the_eight_frames(k: ActionKeyView)
    ensures
        fingerprint(k) == codec::text_frame(k.mnemonic) + codec::list_frame::<String>(k.argv)
            + codec::list_frame::<(String, String)>(k.env) + codec::list_frame::<ActionInput>(k.inputs)
            + codec::list_frame::<String>(k.outputs) + codec::list_frame::<ActionInput>(k.tools) + (
        match k.exec_platform {
            None => seq![0u8],
            Some(p) => seq![1u8] + codec::text_frame(p.label) + codec::bytes_frame(
                p.resolved_digest,
            ),
        }) + codec::list_frame::<(String, String)>(k.exec_properties),
{
    assert(fingerprint(k) =~= codec::text_frame(k.mnemonic) + codec::list_frame::<String>(k.argv)
        + codec::list_frame::<(String, String)>(k.env) + codec::list_frame::<ActionInput>(k.inputs)
        + codec::list_frame::<String>(k.outputs) + codec::list_frame::<ActionInput>(k.tools) + (
    match k.exec_platform {
        None => seq![0u8],
        Some(p) => seq![1u8] + codec::text_frame(p.label) + codec::bytes_frame(p.resolved_digest),
    }) + codec::list_frame::<(String, String)>(k.exec_properties));
}

/// An input or a tool is written as the frame of its path and the frame of its bytes.
pub proof fn law_input_is_path_and_bytes(v: ActionInputView)
    ensures
        <ActionInput as Framed>::frame(v) == codec::text_frame(v.path) + codec::bytes_frame(
            v.content,
        ),
{
}

/// The canonical form keeps every dimension: mnemonic, arguments, environment, platform and properties
/// as they are, the same tools and the same inputs, by path, and the same outputs, each once and in
/// ascending order.
pub proof fn law_canonical_form_keeps_every_dimension(k: ActionKeyView, declared: ActionKeyView)
    requires
        canonical_form_of(k, declared),
    ensures
        k.mnemonic == declared.mnemonic,
        k.argv == declared.argv,
        k.env == declared.env,
        k.exec_platform == declared.exec_platform,
        k.exec_properties == declared.exec_properties,
        k.tools.to_multiset() == declared.tools.to_multiset(),
        k.inputs.to_multiset() == declared.inputs.to_multiset(),
        k.outputs.to_set() == declared.outputs.to_set(),
        k.outputs.no_duplicates(),
        forall|i: int, j: int|
            0 <= i < j < k.tools.len() ==> !order::text_lt(
                (#[trigger] k.tools[j]).path,
                (#[trigger] k.tools[i]).path,
            ),
        forall|i: int, j: int|
            0 <= i < j < k.inputs.len() ==> !order::text_lt(
                (#[trigger] k.inputs[j]).path,
                (#[trigger] k.inputs[i]).path,
            ),
        forall|i: int, j: int|
            0 <= i < j < k.outputs.len() ==> order::text_lt(
                #[trigger] k.outputs[i],
                #[trigger] k.outputs[j],
            ),
{
    let any = |v: ActionInputView| v.path_of() == Seq::<char>::empty();
    order::law_sorting_is_a_stable_permutation(declared.tools, k.tools, Seq::empty(), any);
    order::law_sorting_is_a_stable_permutation(declared.inputs, k.inputs, Seq::empty(), any);
    order::law_sorted_set_keeps_every_text(declared.outputs, k.outputs);
    assert forall|i: int, j: int| 0 <= i < j < k.tools.len() implies !order::text_lt(
        (#[trigger] k.tools[j]).path,
        (#[trigger] k.tools[i]).path,
    ) by {
        assert(!order::text_lt(k.tools[j].path_of(), k.tools[i].path_of()));
    }
    assert forall|i: int, j: int| 0 <= i < j < k.inputs.len() implies !order::text_lt(
        (#[trigger] k.inputs[j]).path,
        (#[trigger] k.inputs[i]).path,
    ) by {
        assert(!order::text_lt(k.inputs[j].path_of(), k.inputs[i].path_of()));
    }
}

/// Tools that share a path, and inputs that do, stand in the canonical form in the order in which they
/// were declared.
pub proof fn law_canonical_form_is_stable(
    k: ActionKeyView,
    declared: ActionKeyView,
    path: Seq<char>,
    has_path: spec_fn(ActionInputView) -> bool,
)
    requires
        canonical_form_of(k, declared),
        forall|v: ActionInputView| #[trigger] has_path(v) <==> v.path == path,
    ensures
        k.tools.filter(has_path) == declared.tools.filter(has_path),
        k.inputs.filter(has_path) == declared.inputs.filter(has_path),
{
    assert forall|v: ActionInputView| #[trigger] has_path(v) <==> v.path_of() == path by {
        assert(v.path_of() == v.path);
    }
    order::law_sorting_is_a_stable_permutation(declared.tools, k.tools, path, has_path);
    order::law_sorting_is_a_stable_permutation(declared.inputs, k.inputs, path, has_path);
}

/// The request of a fingerprint asks for what the fingerprint names: its mnemonic, its arguments in
/// order, its environment, each of its inputs with its bytes, and its outputs.
pub proof fn law_request_is_the_fingerprint(k: ActionKeyView)
    ensures
        request_of(k).mnemonic == k.mnemonic,
        request_of(k).argv == k.argv,
        request_of(k).env == k.env,
        request_of(k).outputs == k.outputs,
        request_of(k).inputs.len() == k.inputs.len(),
        forall|i: int|
            0 <= i < k.inputs.len() ==> (#[trigger] request_of(k).inputs[i]).path == k.inputs[i].path
                && request_of(k).inputs[i].content == k.inputs[i].content,
{
}

/// What a template declares: its own mnemonic, arguments and outputs, the map of its environment, the
/// given inputs, and nothing in the other dimensions.
pub proof fn law_template_declares_its_fields(t: ActionTemplateView, inputs: Seq<ActionInputView>)
    ensures
        declared_by_template(t, inputs).mnemonic == t.mnemonic,
        declared_by_template(t, inputs).argv == t.argv,
        declared_by_template(t, inputs).env == string_map::collected(t.env),
        declared_by_template(t, inputs).outputs == t.outputs,
        declared_by_template(t, inputs).inputs == inputs,
        declared_by_template(t, inputs).tools.len() == 0,
        declared_by_template(t, inputs).exec_platform is None,
        declared_by_template(t, inputs).exec_properties.len() == 0,
{
}

/// The order of map entries in the bytes is not seen: bytes that list the entries of the two maps in any
/// order, keys repeated or not, decode to the fingerprint with these maps.
#[verifier::spinoff_prover]
#[verifier::rlimit(40)]
pub proof fn law_fingerprint_decodes_any_entry_order(k: ActionKeyView)
    requires
        fingerprint(k).len() <= usize::MAX,
    ensures
        decoded_fingerprint(fingerprint(k)) matches Ok(d) && {
            &&& d.mnemonic == k.mnemonic
            &&& d.argv == k.argv
            &&& d.env == string_map::collected(k.env)
            &&& d.tools == k.tools
            &&& d.inputs == k.inputs
            &&& d.outputs == k.outputs
            &&& d.exec_platform == k.exec_platform
            &&& d.exec_properties == string_map::collected(k.exec_properties)
        },
{
    codec::lemma_whole_is_at(fingerprint(k));
    lemma_fingerprint_round_trips(k, fingerprint(k), 0);
}

proof fn lemma_platform_is_written(b: Seq<u8>, i: int, what: Seq<char>)
    requires
        0 <= i,
        usize::MAX == u64::MAX,
    ensures
        platform_at(b, i, what) matches (Ok(p), j) ==> {
            &&& codec::is_at(b, i, platform_frame(p))
            &&& j == i + platform_frame(p).len()
        },
{
    if let (Ok(tag), j) = codec::take_at(b, i, 1, what) {
        assert(tag =~= seq![tag[0]]);
        if tag[0] == 1 {
            codec::lemma_text_is_framed(b, j, what);
            if let (Ok(label), l) = codec::text_at(b, j, what) {
                codec::lemma_at_join(b, i, tag, codec::text_frame(label));
                codec::lemma_bytes_are_framed(b, l, what);
                if let (Ok(digest), _) = codec::bytes_at(b, l, what) {
                    codec::lemma_at_join(
                        b,
                        i,
                        tag + codec::text_frame(label),
                        codec::bytes_frame(digest),
                    );
                }
            }
        }
    }
}

/// The pairs that stand where a map was read.
proof fn lemma_map_is_written(b: Seq<u8>, i: int, what: Seq<char>) -> (m: Seq<
    (Seq<char>, Seq<char>),
>)
    requires
        0 <= i,
        usize::MAX == u64::MAX,
        string_map::map_at(b, i, what).0 is Ok,
    ensures
        string_map::map_at(b, i, what).0 == Ok::<Seq<(Seq<char>, Seq<char>)>, ErrorView>(
            string_map::collected(m),
        ),
        codec::is_at(b, i, codec::list_frame::<(String, String)>(m)),
        string_map::map_at(b, i, what).1 == i + codec::list_frame::<(String, String)>(m).len(),
{
    codec::lemma_list_is_written::<(String, String)>(b, i, what);
    codec::list_at::<(String, String)>(b, i, what).0->Ok_0
}

#[verifier::spinoff_prover]
#[verifier::rlimit(40)]
proof fn lemma_five_is_written(b: Seq<u8>) -> (env: Seq<(Seq<char>, Seq<char>)>)
    requires
        usize::MAX == u64::MAX,
        five_at(b, 0).0 is Ok,
    ensures
        ({
            let (mnemonic, argv, e, inputs, outputs) = five_at(b, 0).0->Ok_0;
            let frames = codec::text_frame(mnemonic) + codec::list_frame::<String>(argv)
                + codec::list_frame::<(String, String)>(env) + codec::list_frame::<ActionInput>(inputs)
                + codec::list_frame::<String>(outputs);
            &&& e == string_map::collected(env)
            &&& codec::is_at(b, 0, frames)
            &&& five_at(b, 0).1 == frames.len()
        }),
{
    let w = fingerprint_what();
    let (mnemonic, argv, e, inputs, outputs) = five_at(b, 0).0->Ok_0;
    codec::lemma_text_is_framed(b, 0, w);
    let p1 = codec::text_at(b, 0, w).1;
    codec::lemma_list_is_written::<String>(b, p1, w);
    let p2 = codec::list_at::<String>(b, p1, w).1;
    let env = lemma_map_is_written(b, p2, w);
    let p3 = string_map::map_at(b, p2, w).1;
    codec::lemma_list_is_written::<ActionInput>(b, p3, w);
    let p4 = codec::list_at::<ActionInput>(b, p3, w).1;
    codec::lemma_list_is_written::<String>(b, p4, w);
    let f1 = codec::text_frame(mnemonic);
    let f2 = codec::list_frame::<String>(argv);
    let f3 = codec::list_frame::<(String, String)>(env);
    let f4 = codec::list_frame::<ActionInput>(inputs);
    let f5 = codec::list_frame::<String>(outputs);
    codec::lemma_at_join(b, 0, f1, f2);
    codec::lemma_at_join(b, 0, f1 + f2, f3);
    codec::lemma_at_join(b, 0, f1 + f2 + f3, f4);
    codec::lemma_at_join(b, 0, f1 + f2 + f3 + f4, f5);
    env
}

#[verifier::spinoff_prover]
#[verifier::rlimit(40)]
proof fn lemma_widened_is_written(b: Seq<u8>, i: int) -> (props: Seq<(Seq<char>, Seq<char>)>)
    requires
        0 <= i,
        usize::MAX == u64::MAX,
        widened_at(b, i).0 is Ok,
    ensures
        ({
            let (tools, platform, p) = widened_at(b, i).0->Ok_0;
            let frames = codec::list_frame::<ActionInput>(tools) + platform_frame(platform)
                + codec::list_frame::<(String, String)>(props);
            &&& p == string_map::collected(props)
            &&& codec::is_at(b, i, frames)
            &&& widened_at(b, i).1 == i + frames.len()
        }),
{
    let w = fingerprint_what();
    let (tools, platform, p) = widened_at(b, i).0->Ok_0;
    codec::lemma_list_is_written::<ActionInput>(b, i, w);
    let p1 = codec::list_at::<ActionInput>(b, i, w).1;
    lemma_platform_is_written(b, p1, w);
    let p2 = platform_at(b, p1, w).1;
    let props = lemma_map_is_written(b, p2, w);
    let f1 = codec::list_frame::<ActionInput>(tools);
    let f2 = platform_frame(platform);
    let f3 = codec::list_frame::<(String, String)>(props);
    codec::lemma_at_join(b, i, f1, f2);
    codec::lemma_at_join(b, i, f1 + f2, f3);
    props
}

/// Only the bytes of a fingerprint decode: on a machine whose numbers hold every length of eight bytes,
/// what decodes is the encoding of the very dimensions that come out, up to the order of the entries of
/// the two maps.
#[verifier::spinoff_prover]
#[verifier::rlimit(40)]
pub proof fn law_only_fingerprints_decode(b: Seq<u8>) -> (k: ActionKeyView)
    requires
        usize::MAX == u64::MAX,
        decoded_fingerprint(b) is Ok,
    ensures
        b == fingerprint(k),
        decoded_fingerprint(b) matches Ok(d) && {
            &&& d.mnemonic == k.mnemonic
            &&& d.argv == k.argv
            &&& d.env == string_map::collected(k.env)
            &&& d.tools == k.tools
            &&& d.inputs == k.inputs
            &&& d.outputs == k.outputs
            &&& d.exec_platform == k.exec_platform
            &&& d.exec_properties == string_map::collected(k.exec_properties)
        },
{
    let d = decoded_fingerprint(b)->Ok_0;
    let env = lemma_five_is_written(b);
    let p = five_at(b, 0).1;
    let exec_properties = lemma_widened_is_written(b, p);
    let k = ActionKeyView {
        mnemonic: d.mnemonic,
        argv: d.argv,
        env,
        tools: d.tools,
        inputs: d.inputs,
        outputs: d.outputs,
        exec_platform: d.exec_platform,
        exec_properties,
    };
    codec::lemma_at_join(b, 0, five_frames(k), widened_frames(k));
    assert(b.subrange(0, b.len() as int) =~= b);
    k
}

/// A platform tag that is neither that of a missing platform nor that of a named one is refused by its
/// number, whatever follows it.
#[verifier::spinoff_prover]
#[verifier::rlimit(40)]
pub proof fn law_unknown_platforms_are_refused(k: ActionKeyView, tag: u8, rest: Seq<u8>)
    requires
        tag >= 2,
        (five_frames(k) + codec::list_frame::<ActionInput>(k.tools) + seq![tag] + rest).len()
            <= usize::MAX,
    ensures
        decoded_fingerprint(
            five_frames(k) + codec::list_frame::<ActionInput>(k.tools) + seq![tag] + rest,
        ) == Err::<ActionKeyView, ErrorView>(
            ErrorView::Invalid {
                what: "ActionKey fingerprint"@,
                detail: "bad exec_platform tag "@ + text::decimal(tag as nat),
            },
        ),
{
    let w = fingerprint_what();
    let f1 = five_frames(k);
    let f2 = codec::list_frame::<ActionInput>(k.tools);
    let b = f1 + f2 + seq![tag] + rest;
    codec::lemma_whole_is_at(b);
    codec::lemma_at_split(b, 0, f1 + f2 + seq![tag], rest);
    codec::lemma_at_split(b, 0, f1 + f2, seq![tag]);
    codec::lemma_at_split(b, 0, f1, f2);
    lemma_five_round_trip(k, b, 0);
    codec::lemma_list_round_trips::<ActionInput>(k.tools, b, f1.len() as int, w);
    let n = (f1 + f2).len() as int;
    assert(b.subrange(n, n + 1)[0] == tag);
}

/// A mnemonic whose bytes are no UTF-8 is refused as such, whatever follows it.
pub proof fn law_other_bytes_are_no_text(s: Seq<u8>, rest: Seq<u8>)
    requires
        !vstd::utf8::valid_utf8(s),
        (codec::bytes_frame(s) + rest).len() <= usize::MAX,
    ensures
        decoded_fingerprint(codec::bytes_frame(s) + rest) == Err::<ActionKeyView, ErrorView>(
            ErrorView::Invalid { what: "ActionKey fingerprint"@, detail: "non-utf8"@ },
        ),
{
    let b = codec::bytes_frame(s) + rest;
    codec::lemma_whole_is_at(b);
    codec::lemma_at_split(b, 0, codec::bytes_frame(s), rest);
    codec::lemma_bytes_round_trip(b, 0, s, fingerprint_what());
}

} // verus!
