//! The values of the execution nodes. They hold paths and digests, never the bytes of an artifact.
use vstd::prelude::*;
use vstd::utf8::*;
use crate::codec;
use crate::codec::{enc_str, put_u32, put_u64};
use crate::digest::Digest;
use crate::error::{invalid, Error, ErrorView};
use crate::order;
use crate::order::{find_by_path, sort_by_path, HasPath, Pathed};
use crate::spawn::{SpawnOutputView, SpawnResult, SpawnResultView};
use crate::target::{ConfiguredTarget, ConfiguredTargetView};
use crate::text;
use crate::text::text_equal;

verus! {

// ---------------------------------------------------------------------------------------------
// The values
// ---------------------------------------------------------------------------------------------

/// How the graph may treat a value.
#[derive(Clone, Copy, PartialEq, Eq, Structural, Debug)]
pub struct ValuePolicy {
    pub comparable: bool,
    pub always_dirty: bool,
    pub shareable: bool,
    pub serializable: bool,
    pub process_local: bool,
}

/// The policy of all values of this crate: they are compared, shared and serialized, and they are dirty
/// only when something changed.
pub open spec fn metadata_policy() -> ValuePolicy {
    ValuePolicy {
        comparable: true,
        always_dirty: false,
        shareable: true,
        serializable: true,
        process_local: false,
    }
}

/// The policy of all values of this crate.
fn shared_policy() -> (p: ValuePolicy)
    ensures
        p == metadata_policy(),
{
    ValuePolicy {
        comparable: true,
        always_dirty: false,
        shareable: true,
        serializable: true,
        process_local: false,
    }
}

/// One output that an action produced: its path and the digest of its bytes.
#[derive(PartialEq, Eq, Debug)]
pub struct OutputDigest {
    pub path: String,
    pub digest: Digest,
}

/// What an [`OutputDigest`] stands for.
pub struct OutputDigestView {
    pub path: Seq<char>,
    pub digest: Seq<char>,
}

impl View for OutputDigest {
    type V = OutputDigestView;

    open spec fn view(&self) -> OutputDigestView {
        OutputDigestView { path: self.path@, digest: self.digest@ }
    }
}

impl Clone for OutputDigest {
    fn clone(&self) -> (r: OutputDigest)
        ensures
            r@ == self@,
    {
        OutputDigest { path: self.path.clone(), digest: self.digest.clone() }
    }
}

impl HasPath for OutputDigestView {
    open spec fn path_of(self) -> Seq<char> {
        self.path
    }
}

impl Pathed for OutputDigest {
    fn path_text(&self) -> (r: &str) {
        self.path.as_str()
    }
}

/// The value of an action node: the exit code and the outputs, sorted by path.
#[derive(PartialEq, Eq, Debug)]
pub struct ActionValue {
    pub exit_code: i32,
    pub outputs: Vec<OutputDigest>,
}

/// What an [`ActionValue`] stands for.
pub struct ActionValueView {
    pub exit_code: i32,
    pub outputs: Seq<OutputDigestView>,
}

impl View for ActionValue {
    type V = ActionValueView;

    open spec fn view(&self) -> ActionValueView {
        ActionValueView { exit_code: self.exit_code, outputs: order::views(self.outputs@) }
    }
}

impl Clone for ActionValue {
    fn clone(&self) -> (r: ActionValue)
        ensures
            r@ == self@,
    {
        let mut outputs: Vec<OutputDigest> = Vec::new();
        let n: usize = self.outputs.len();
        for i in 0..n
            invariant
                n == self.outputs@.len(),
                order::views(outputs@) == self@.outputs.take(i as int),
        {
            let ghost before = order::views(outputs@);
            let o = self.outputs[i].clone();
            outputs.push(o);
            assert(order::views(outputs@) =~= before.push(o@));
            assert(self@.outputs[i as int] == o@);
            assert(before.push(o@) =~= self@.outputs.take(i + 1));
        }
        assert(order::views(outputs@) =~= self@.outputs);
        ActionValue { exit_code: self.exit_code, outputs }
    }
}

/// The value of an artifact node: its path and the digest of its bytes.
#[derive(PartialEq, Eq, Debug)]
pub struct ArtifactValue {
    pub exec_path: String,
    pub digest: Digest,
}

/// What an [`ArtifactValue`] stands for.
pub struct ArtifactValueView {
    pub exec_path: Seq<char>,
    pub digest: Seq<char>,
}

impl View for ArtifactValue {
    type V = ArtifactValueView;

    open spec fn view(&self) -> ArtifactValueView {
        ArtifactValueView { exec_path: self.exec_path@, digest: self.digest@ }
    }
}

impl Clone for ArtifactValue {
    fn clone(&self) -> (r: ArtifactValue)
        ensures
            r@ == self@,
    {
        ArtifactValue { exec_path: self.exec_path.clone(), digest: self.digest.clone() }
    }
}

/// The value of a completion node: a sentinel. That its dependencies were requested is the build.
#[derive(Clone, Copy, PartialEq, Eq, Structural, Debug)]
pub struct TargetCompletionValue;

/// The value of a file node, as far as it is read here: whether the file exists.
#[derive(Clone, Copy, PartialEq, Eq, Structural, Debug)]
pub struct FileValue {
    pub exists: bool,
}

/// The value of a node that is requested.
#[derive(PartialEq, Eq, Debug)]
pub enum NodeValue {
    ConfiguredTarget(ConfiguredTarget),
    File(FileValue),
    Action(ActionValue),
    Artifact(ArtifactValue),
    TargetCompletion(TargetCompletionValue),
    /// A value of any other kind.
    Other,
}

/// What a [`NodeValue`] stands for.
pub enum NodeValueView {
    ConfiguredTarget(ConfiguredTargetView),
    File(FileValue),
    Action(ActionValueView),
    Artifact(ArtifactValueView),
    TargetCompletion,
    Other,
}

impl View for NodeValue {
    type V = NodeValueView;

    open spec fn view(&self) -> NodeValueView {
        match *self {
            NodeValue::ConfiguredTarget(ct) => NodeValueView::ConfiguredTarget(ct@),
            NodeValue::File(f) => NodeValueView::File(f),
            NodeValue::Action(a) => NodeValueView::Action(a@),
            NodeValue::Artifact(a) => NodeValueView::Artifact(a@),
            NodeValue::TargetCompletion(_) => NodeValueView::TargetCompletion,
            NodeValue::Other => NodeValueView::Other,
        }
    }
}

/// The configured target that a value is, or the failure for any other value.
pub open spec fn configured_target_of(v: NodeValueView) -> Result<ConfiguredTargetView, ErrorView> {
    match v {
        NodeValueView::ConfiguredTarget(ct) => Ok(ct),
        _ => Err(
            ErrorView::Invalid {
                what: "CONFIGURED_TARGET dep"@,
                detail: "not a ConfiguredTarget"@,
            },
        ),
    }
}

/// The configured target that a value is.
pub fn as_configured_target(v: &NodeValue) -> (r: Result<&ConfiguredTarget, Error>)
    ensures
        match r {
            Ok(ct) => configured_target_of(v@) == Ok::<ConfiguredTargetView, ErrorView>(ct@),
            Err(e) => configured_target_of(v@) == Err::<ConfiguredTargetView, ErrorView>(e@),
        },
{
    match v {
        NodeValue::ConfiguredTarget(ct) => Ok(ct),
        _ => Err(invalid("CONFIGURED_TARGET dep", "not a ConfiguredTarget")),
    }
}

// ---------------------------------------------------------------------------------------------
// Action values
// ---------------------------------------------------------------------------------------------

/// The outputs of a spawn by path and digest, in the order in which the spawn gave them.
pub open spec fn digested(outputs: Seq<SpawnOutputView>) -> Seq<OutputDigestView> {
    outputs.map_values(|o: SpawnOutputView| OutputDigestView { path: o.path, digest: o.digest })
}

/// `v` is the value of an action whose spawn ended with `res`.
pub open spec fn value_of_spawn(v: ActionValueView, res: SpawnResultView) -> bool {
    v.exit_code == res.code && order::stable_sort_of(digested(res.outputs), v.outputs)
}

/// The number of two's complement that stands for an exit code.
pub open spec fn code_number(code: i32) -> nat {
    if code < 0 {
        (code + 0x1_0000_0000) as nat
    } else {
        code as nat
    }
}

/// Path and digest of each output.
pub open spec fn output_pairs(outputs: Seq<OutputDigestView>) -> Seq<(Seq<char>, Seq<char>)> {
    outputs.map_values(|o: OutputDigestView| (o.path, o.digest))
}

/// The bytes whose digest is the content digest of an action value: the exit code in four bytes, the
/// number of outputs, and path and digest of each behind their lengths.
pub open spec fn action_content(v: ActionValueView) -> Seq<u8> {
    codec::be_bytes(code_number(v.exit_code), 4) + codec::list_frame::<(String, String)>(
        output_pairs(v.outputs),
    )
}

/// Another value is an equal action value.
pub open spec fn equals_action(v: ActionValueView, other: NodeValueView) -> bool {
    other == NodeValueView::Action(v)
}

impl ActionValue {
    /// The output with the given path.
    pub fn output(&self, path: &str) -> (r: Option<&OutputDigest>)
        ensures
            match r {
                Some(o) => order::first_with_path(self@.outputs, path@) == Some(o@),
                None => order::first_with_path(self@.outputs, path@) is None,
            },
    {
        match find_by_path(&self.outputs, path) {
            Some(i) => Some(&self.outputs[i]),
            None => None,
        }
    }

    /// The value of an action whose spawn ended with `res`: its exit code, and path and digest of each
    /// output, sorted by path.
    pub fn from_spawn(res: &SpawnResult) -> (v: ActionValue)
        ensures
            value_of_spawn(v@, res@),
            v.exit_code == res.code,
            v.outputs@.len() == res.outputs@.len(),
    {
        let mut outputs: Vec<OutputDigest> = Vec::new();
        let ghost all = digested(res@.outputs);
        let n: usize = res.outputs.len();
        for i in 0..n
            invariant
                n == res.outputs@.len(),
                all == digested(res@.outputs),
                order::views(outputs@) == all.take(i as int),
        {
            let ghost before = order::views(outputs@);
            let o = OutputDigest {
                path: res.outputs[i].path.clone(),
                digest: res.outputs[i].digest.clone(),
            };
            outputs.push(o);
            assert(order::views(outputs@) =~= before.push(o@));
            assert(res@.outputs[i as int] == res.outputs@[i as int]@);
            assert(all[i as int] == o@);
            assert(before.push(o@) =~= all.take(i + 1));
        }
        assert(all.take(n as int) =~= all);
        assert(order::views(outputs@).len() == n);
        ActionValue { exit_code: res.code, outputs: sort_by_path(outputs) }
    }

    /// The policy of the value.
    pub fn policy(&self) -> (p: ValuePolicy)
        ensures
            p == metadata_policy(),
    {
        shared_policy()
    }

    /// Whether another value is an equal action value: the graph cuts off where it is.
    pub fn value_eq(&self, other: &NodeValue) -> (r: bool)
        ensures
            r == equals_action(self@, other@),
    {
        match other {
            NodeValue::Action(o) => {
                assert(self@.outputs.len() == self.outputs@.len());
                assert(o@.outputs.len() == o.outputs@.len());
                if self.exit_code != o.exit_code || self.outputs.len() != o.outputs.len() {
                    return false;
                }
                let n: usize = self.outputs.len();
                for i in 0..n
                    invariant
                        n == self.outputs@.len(),
                        n == o.outputs@.len(),
                        other@ == NodeValueView::Action(o@),
                        self.exit_code == o.exit_code,
                        forall|j: int| 0 <= j < i ==> self@.outputs[j] == o@.outputs[j],
                {
                    assert(self@.outputs[i as int] == self.outputs@[i as int]@);
                    assert(o@.outputs[i as int] == o.outputs@[i as int]@);
                    let a = &self.outputs[i];
                    let b = &o.outputs[i];
                    if !text_equal(a.path.as_str(), b.path.as_str()) || !text_equal(
                        a.digest.hex.as_str(),
                        b.digest.hex.as_str(),
                    ) {
                        return false;
                    }
                }
                assert(self@.outputs =~= o@.outputs);
                true
            },
            _ => false,
        }
    }

    /// The bytes whose digest is the content digest of the value.
    pub fn content_bytes(&self) -> (b: Vec<u8>)
        ensures
            b@ == action_content(self@),
    {
        let ghost pairs = output_pairs(self@.outputs);
        let mut b: Vec<u8> = Vec::new();
        let code = self.exit_code;
        assert(code < 0 ==> (code as u32) == code + 0x1_0000_0000) by (bit_vector);
        assert(code >= 0 ==> (code as u32) == code) by (bit_vector);
        put_u32(
            &mut b,
            #[verifier::truncate]
            (code as u32),
        );
        let n: usize = self.outputs.len();
        put_u64(&mut b, n as u64);
        let ghost head = b@;
        for i in 0..n
            invariant
                n == self.outputs@.len(),
                pairs == output_pairs(self@.outputs),
                b@ == head + codec::items_frame::<(String, String)>(pairs.take(i as int)),
        {
            let o = &self.outputs[i];
            enc_str(&mut b, o.path.as_str());
            enc_str(&mut b, o.digest.hex.as_str());
            proof {
                let part = pairs.take(i + 1);
                assert(part.drop_last() =~= pairs.take(i as int));
                assert(self@.outputs[i as int] == o@);
                assert(part.last() == (o@.path, o@.digest));
            }
            assert(b@ =~= head + codec::items_frame::<(String, String)>(pairs.take(i + 1)));
        }
        assert(pairs.take(n as int) =~= pairs);
        assert(b@ =~= action_content(self@));
        b
    }
}

// ---------------------------------------------------------------------------------------------
// Artifact and completion values
// ---------------------------------------------------------------------------------------------

/// The bytes whose digest is the content digest of an artifact value: the path behind its length, and
/// the digest.
pub open spec fn artifact_content(v: ArtifactValueView) -> Seq<u8> {
    codec::text_frame(v.exec_path) + encode_utf8(v.digest)
}

/// Another value is an equal artifact value.
pub open spec fn equals_artifact(v: ArtifactValueView, other: NodeValueView) -> bool {
    other == NodeValueView::Artifact(v)
}

impl ArtifactValue {
    /// The policy of the value.
    pub fn policy(&self) -> (p: ValuePolicy)
        ensures
            p == metadata_policy(),
    {
        shared_policy()
    }

    /// Whether another value is an equal artifact value: the graph cuts off where it is.
    pub fn value_eq(&self, other: &NodeValue) -> (r: bool)
        ensures
            r == equals_artifact(self@, other@),
    {
        match other {
            NodeValue::Artifact(o) => text_equal(self.exec_path.as_str(), o.exec_path.as_str())
                && text_equal(self.digest.hex.as_str(), o.digest.hex.as_str()),
            _ => false,
        }
    }

    /// The bytes whose digest is the content digest of the value.
    pub fn content_bytes(&self) -> (b: Vec<u8>)
        ensures
            b@ == artifact_content(self@),
    {
        let mut b: Vec<u8> = Vec::new();
        enc_str(&mut b, self.exec_path.as_str());
        b.extend_from_slice(self.digest.hex.as_str().as_bytes());
        assert(b@ =~= artifact_content(self@));
        b
    }
}

impl TargetCompletionValue {
    /// The policy of the value.
    pub fn policy(&self) -> (p: ValuePolicy)
        ensures
            p == metadata_policy(),
    {
        shared_policy()
    }

    /// Whether another value is the sentinel too.
    pub fn value_eq(&self, other: &NodeValue) -> (r: bool)
        ensures
            r == (other@ == NodeValueView::TargetCompletion),
    {
        match other {
            NodeValue::TargetCompletion(_) => true,
            _ => false,
        }
    }

    /// The bytes whose digest is the content digest of the sentinel.
    pub fn content_bytes(&self) -> (b: Vec<u8>)
        ensures
            b@ == encode_utf8("TARGET_COMPLETION sentinel"@),
    {
        text::copy_bytes("TARGET_COMPLETION sentinel".as_bytes())
    }
}

// ---------------------------------------------------------------------------------------------
// Laws
// ---------------------------------------------------------------------------------------------

proof fn lemma_code_number(a: i32)
    ensures
        code_number(a) <= u32::MAX,
        a >= 0 ==> code_number(a) < 0x8000_0000,
        a < 0 ==> code_number(a) >= 0x8000_0000,
{
}

/// The content of an action value identifies it: two values have the same content bytes if and only if
/// they are equal.
pub proof fn law_action_content_identifies(a: ActionValueView, b: ActionValueView)
    requires
        action_content(a).len() <= usize::MAX,
    ensures
        action_content(a) == action_content(b) <==> a == b,
{
    if action_content(a) == action_content(b) {
        let s = action_content(a);
        let what = ""@;
        let code_a = codec::be_bytes(code_number(a.exit_code), 4);
        let code_b = codec::be_bytes(code_number(b.exit_code), 4);
        let list_a = codec::list_frame::<(String, String)>(output_pairs(a.outputs));
        let list_b = codec::list_frame::<(String, String)>(output_pairs(b.outputs));
        lemma_code_number(a.exit_code);
        lemma_code_number(b.exit_code);
        codec::lemma_whole_is_at(s);
        codec::lemma_be_bytes_len(code_number(a.exit_code), 4);
        codec::lemma_be_bytes_len(code_number(b.exit_code), 4);
        codec::lemma_at_split(s, 0, code_a, list_a);
        codec::lemma_at_split(s, 0, code_b, list_b);
        codec::lemma_u32_round_trips(s, 0, code_number(a.exit_code) as u32, what);
        codec::lemma_u32_round_trips(s, 0, code_number(b.exit_code) as u32, what);
        codec::lemma_list_round_trips::<(String, String)>(output_pairs(a.outputs), s, 4, what);
        codec::lemma_list_round_trips::<(String, String)>(output_pairs(b.outputs), s, 4, what);
        assert(output_pairs(a.outputs) == output_pairs(b.outputs));
        assert forall|i: int| 0 <= i < a.outputs.len() implies a.outputs[i] == b.outputs[i] by {
            assert(output_pairs(a.outputs)[i] == output_pairs(b.outputs)[i]);
        }
        assert(a.outputs.len() == output_pairs(a.outputs).len());
        assert(b.outputs.len() == output_pairs(b.outputs).len());
        assert(a.outputs =~= b.outputs);
    }
}

/// The content of an artifact value identifies it: two values have the same content bytes if and only if
/// they are equal.
pub proof fn law_artifact_content_identifies(a: ArtifactValueView, b: ArtifactValueView)
    requires
        artifact_content(a).len() <= usize::MAX,
    ensures
        artifact_content(a) == artifact_content(b) <==> a == b,
{
    if artifact_content(a) == artifact_content(b) {
        let s = artifact_content(a);
        let path_a = codec::text_frame(a.exec_path);
        let path_b = codec::text_frame(b.exec_path);
        codec::lemma_whole_is_at(s);
        codec::lemma_at_split(s, 0, path_a, encode_utf8(a.digest));
        codec::lemma_at_split(s, 0, path_b, encode_utf8(b.digest));
        codec::lemma_text_round_trips(s, 0, a.exec_path, ""@);
        codec::lemma_text_round_trips(s, 0, b.exec_path, ""@);
        assert(encode_utf8(a.digest).len() == encode_utf8(b.digest).len());
        text::lemma_utf8_injective(a.digest, b.digest);
    }
}

/// An action that runs again and gives the same exit code and the same outputs by path and digest has the
/// same value, whatever changed in front of it: there the graph cuts off.
pub proof fn law_equal_outputs_have_one_value(
    x: SpawnResultView,
    y: SpawnResultView,
    a: ActionValueView,
    b: ActionValueView,
)
    requires
        value_of_spawn(a, x),
        value_of_spawn(b, y),
        x.code == y.code,
        digested(x.outputs) == digested(y.outputs),
    ensures
        a == b,
{
    assert forall|p: Seq<char>| #[trigger]
        order::with_path(a.outputs, p) == order::with_path(b.outputs, p) by {
        assert(order::with_path(b.outputs, p) == order::with_path(digested(y.outputs), p));
    }
    order::law_stable_sort_is_unique(a.outputs, b.outputs);
}

/// The value does not depend on the order in which a spawn gives its outputs: two spawns with one exit
/// code and the same outputs by path and digest, no two of them with one path, have one value.
pub proof fn law_value_forgets_output_order(
    x: SpawnResultView,
    y: SpawnResultView,
    a: ActionValueView,
    b: ActionValueView,
)
    requires
        value_of_spawn(a, x),
        value_of_spawn(b, y),
        x.code == y.code,
        digested(x.outputs).to_multiset() == digested(y.outputs).to_multiset(),
        order::distinct_paths(digested(x.outputs)),
        order::distinct_paths(digested(y.outputs)),
    ensures
        a == b,
{
    order::law_sort_forgets_declaration_order(
        digested(x.outputs),
        digested(y.outputs),
        a.outputs,
        b.outputs,
    );
}

/// What a value gives for a path is what the spawn produced there.
pub proof fn law_output_is_what_was_produced(
    res: SpawnResultView,
    v: ActionValueView,
    path: Seq<char>,
)
    requires
        value_of_spawn(v, res),
    ensures
        order::first_with_path(v.outputs, path) == order::first_with_path(
            digested(res.outputs),
            path,
        ),
{
    order::law_sort_keeps_what_is_found(digested(res.outputs), v.outputs, path);
}

// ---------------------------------------------------------------------------------------------
// Laws of the fields
// ---------------------------------------------------------------------------------------------

/// Values are seen as what their fields hold.
pub proof fn law_values_are_their_fields(o: OutputDigest, a: ActionValue, f: ArtifactValue)
    ensures
        o@.path == o.path@ && o@.digest == o.digest.hex@ && o@.path_of() == o.path@,
        a@.exit_code == a.exit_code && a@.outputs.len() == a.outputs@.len(),
        forall|i: int| 0 <= i < a.outputs@.len() ==> #[trigger] a@.outputs[i] == a.outputs@[i]@,
        f@.exec_path == f.exec_path@ && f@.digest == f.digest.hex@,
{
}

/// A value of a node is seen as the value that it is, and as one of no other kind.
pub proof fn law_node_value_keeps_its_kind(v: NodeValue)
    ensures
        match v {
            NodeValue::ConfiguredTarget(ct) => v@ == NodeValueView::ConfiguredTarget(ct@),
            NodeValue::File(f) => v@ == NodeValueView::File(f),
            NodeValue::Action(a) => v@ == NodeValueView::Action(a@),
            NodeValue::Artifact(a) => v@ == NodeValueView::Artifact(a@),
            NodeValue::TargetCompletion(_) => v@ is TargetCompletion,
            NodeValue::Other => v@ is Other,
        },
{
}

/// A configured target is one, and no other value is.
pub proof fn law_only_configured_targets_are_targets(v: NodeValueView)
    ensures
        v matches NodeValueView::ConfiguredTarget(ct) ==> configured_target_of(v) == Ok::<
            ConfiguredTargetView,
            ErrorView,
        >(ct),
        !(v is ConfiguredTarget) ==> configured_target_of(v) == Err::<
            ConfiguredTargetView,
            ErrorView,
        >(
            ErrorView::Invalid {
                what: "CONFIGURED_TARGET dep"@,
                detail: "not a ConfiguredTarget"@,
            },
        ),
{
}

proof fn lemma_digested_multiset(outputs: Seq<SpawnOutputView>, i: int)
    requires
        0 <= i < outputs.len(),
    ensures
        digested(outputs).to_multiset().count(
            OutputDigestView { path: outputs[i].path, digest: outputs[i].digest },
        ) > 0,
{
    broadcast use vstd::seq_lib::group_to_multiset_ensures;

    let d = digested(outputs);
    assert(d[i] == (OutputDigestView { path: outputs[i].path, digest: outputs[i].digest }));
    assert(d.contains(d[i]));
}

/// The value of an action keeps what its spawn ended with: the exit code, whatever it is, and every
/// output by its path and digest, and nothing else, in the order of the paths.
pub proof fn law_value_keeps_code_and_outputs(
    v: ActionValueView,
    res: SpawnResultView,
    j: int,
)
    requires
        value_of_spawn(v, res),
    ensures
        v.exit_code == res.code,
        v.outputs.len() == res.outputs.len(),
        forall|i: int|
            0 <= i < res.outputs.len() ==> v.outputs.contains(
                OutputDigestView {
                    path: (#[trigger] res.outputs[i]).path,
                    digest: res.outputs[i].digest,
                },
            ),
        0 <= j < v.outputs.len() ==> exists|i: int|
            {
                &&& 0 <= i < res.outputs.len()
                &&& (#[trigger] res.outputs[i]).path == v.outputs[j].path
                &&& res.outputs[i].digest == v.outputs[j].digest
            },
        forall|i: int, j: int|
            0 <= i < j < v.outputs.len() ==> !order::text_lt(
                (#[trigger] v.outputs[j]).path,
                (#[trigger] v.outputs[i]).path,
            ),
{
    broadcast use vstd::seq_lib::group_to_multiset_ensures;

    let d = digested(res.outputs);
    let any = |o: OutputDigestView| o.path_of() == Seq::<char>::empty();
    order::law_sorting_is_a_stable_permutation(d, v.outputs, Seq::empty(), any);
    assert forall|i: int| 0 <= i < res.outputs.len() implies v.outputs.contains(
        OutputDigestView {
            path: (#[trigger] res.outputs[i]).path,
            digest: res.outputs[i].digest,
        },
    ) by {
        lemma_digested_multiset(res.outputs, i);
    }
    if 0 <= j < v.outputs.len() {
        assert(v.outputs.contains(v.outputs[j]));
        assert(d.to_multiset().count(v.outputs[j]) > 0);
        assert(d.contains(v.outputs[j]));
        let i = choose|i: int| 0 <= i < d.len() && d[i] == v.outputs[j];
        assert(res.outputs[i].path == v.outputs[j].path);
    }
    assert forall|i: int, j: int| 0 <= i < j < v.outputs.len() implies !order::text_lt(
        (#[trigger] v.outputs[j]).path,
        (#[trigger] v.outputs[i]).path,
    ) by {
        assert(!order::text_lt(v.outputs[j].path_of(), v.outputs[i].path_of()));
    }
}

/// A run that fails is never equal to one that succeeds: two spawns with different exit codes have
/// different values, and different content bytes.
pub proof fn law_exit_codes_are_told_apart(
    x: SpawnResultView,
    y: SpawnResultView,
    a: ActionValueView,
    b: ActionValueView,
)
    requires
        value_of_spawn(a, x),
        value_of_spawn(b, y),
        x.code != y.code,
        action_content(a).len() <= usize::MAX,
    ensures
        a != b,
        action_content(a) != action_content(b),
{
    law_action_content_identifies(a, b);
}

/// An output that changed is seen: two spawns of which one produced something at a path that the other
/// did not produce there have different values.
pub proof fn law_changed_outputs_are_told_apart(
    x: SpawnResultView,
    y: SpawnResultView,
    a: ActionValueView,
    b: ActionValueView,
    i: int,
)
    requires
        value_of_spawn(a, x),
        value_of_spawn(b, y),
        0 <= i < x.outputs.len(),
        forall|j: int|
            0 <= j < y.outputs.len() ==> (#[trigger] y.outputs[j]).path != x.outputs[i].path
                || y.outputs[j].digest != x.outputs[i].digest,
    ensures
        a != b,
{
    law_value_keeps_code_and_outputs(a, x, 0);
    if a == b {
        let o = OutputDigestView { path: x.outputs[i].path, digest: x.outputs[i].digest };
        assert(x.outputs[i].path == o.path);
        assert(b.outputs.contains(o));
        let k = choose|k: int| 0 <= k < b.outputs.len() && b.outputs[k] == o;
        law_value_keeps_code_and_outputs(b, y, k);
        let j = choose|j: int|
            {
                &&& 0 <= j < y.outputs.len()
                &&& (#[trigger] y.outputs[j]).path == b.outputs[k].path
                &&& y.outputs[j].digest == b.outputs[k].digest
            };
        assert(y.outputs[j].path == x.outputs[i].path);
    }
}

/// The content of an action value is the exit code in four bytes of two's complement, the number of
/// outputs in eight, and for each output its path and its digest behind their lengths.
#[verifier::spinoff_prover]
#[verifier::rlimit(40)]
pub proof fn law_action_content_is_code_and_outputs(v: ActionValueView, more: OutputDigestView)
    ensures
        v.exit_code >= 0 ==> action_content(v).take(4) == codec::be_bytes(v.exit_code as nat, 4),
        v.exit_code < 0 ==> action_content(v).take(4) == codec::be_bytes(
            (v.exit_code + 0x1_0000_0000) as nat,
            4,
        ),
        action_content(v).subrange(4, 12) == codec::be_bytes(v.outputs.len(), 8),
        v.outputs.len() == 0 ==> action_content(v).len() == 12,
        action_content(
            ActionValueView { exit_code: v.exit_code, outputs: v.outputs.push(more) },
        ).skip(12) == action_content(v).skip(12) + codec::text_frame(more.path)
            + codec::text_frame(more.digest),
{
    let pairs = output_pairs(v.outputs);
    let w = ActionValueView { exit_code: v.exit_code, outputs: v.outputs.push(more) };
    let code = codec::be_bytes(code_number(v.exit_code), 4);
    let list = codec::list_frame::<(String, String)>(pairs);
    codec::lemma_be_bytes_len(code_number(v.exit_code), 4);
    codec::lemma_be_bytes_len(v.outputs.len(), 8);
    codec::lemma_be_bytes_len(v.outputs.len() + 1, 8);
    codec::law_list_is_count_and_items::<(String, String)>(pairs, (more.path, more.digest));
    assert(output_pairs(w.outputs) =~= pairs.push((more.path, more.digest)));
    let longer = codec::list_frame::<(String, String)>(output_pairs(w.outputs));
    assert(action_content(v).take(4) =~= code);
    assert(action_content(v).subrange(4, 12) =~= list.take(8));
    assert(action_content(v).skip(12) =~= list.skip(8));
    assert(action_content(w).skip(12) =~= longer.skip(8));
    if v.outputs.len() == 0 {
        assert(pairs =~= Seq::empty());
    }
    assert(action_content(w).skip(12) =~= action_content(v).skip(12) + codec::text_frame(more.path)
        + codec::text_frame(more.digest));
}

/// The content of an artifact value is its path behind its length and then its digest.
pub proof fn law_artifact_content_is_path_and_digest(v: ArtifactValueView)
    ensures
        artifact_content(v) == codec::text_frame(v.exec_path) + encode_utf8(v.digest),
{
}

/// All values are compared and shared, and dirty only when something changed.
pub proof fn law_values_are_comparable_metadata()
    ensures
        metadata_policy().comparable,
        !metadata_policy().always_dirty,
        metadata_policy().shareable,
        metadata_policy().serializable,
        !metadata_policy().process_local,
{
}

/// The graph cuts off where and only where nothing changed: another value equals that of an action if it
/// is one too, with the same exit code and the same outputs, path and digest of each at its place; and it
/// equals that of an artifact if it is one too, with the same path and the same digest.
#[verifier::spinoff_prover]
#[verifier::rlimit(40)]
pub proof fn law_values_are_equal_field_by_field(
    a: ActionValueView,
    f: ArtifactValueView,
    other: NodeValueView,
)
    ensures
        equals_action(a, other) <==> {
            &&& other is Action
            &&& other->Action_0.exit_code == a.exit_code
            &&& other->Action_0.outputs.len() == a.outputs.len()
            &&& forall|i: int|
                0 <= i < a.outputs.len() ==> (#[trigger] a.outputs[i]).path
                    == other->Action_0.outputs[i].path && a.outputs[i].digest
                    == other->Action_0.outputs[i].digest
        },
        equals_artifact(f, other) <==> {
            &&& other is Artifact
            &&& other->Artifact_0.exec_path == f.exec_path
            &&& other->Artifact_0.digest == f.digest
        },
{
    if other is Action && other->Action_0.exit_code == a.exit_code && other->Action_0.outputs.len()
        == a.outputs.len() && (forall|i: int|
        0 <= i < a.outputs.len() ==> (#[trigger] a.outputs[i]).path
            == other->Action_0.outputs[i].path && a.outputs[i].digest
            == other->Action_0.outputs[i].digest) {
        let b = other->Action_0;
        assert forall|i: int| 0 <= i < a.outputs.len() implies a.outputs[i] == b.outputs[i] by {
            assert(a.outputs[i].path == b.outputs[i].path);
        }
        assert(a.outputs =~= b.outputs);
    }
}

} // verus!
