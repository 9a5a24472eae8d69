//! The decisions of the artifact and completion nodes. Each stage takes what the graph answered and says
//! what is needed next, or what the computation ends with.
use vstd::prelude::*;
use vstd::string::*;
use crate::digest::Digest;
use crate::error::{invalid, Error, ErrorView};
use crate::graph;
use crate::graph::{
    missing_one, ComputeResult, ComputeResultView, Demand, DemandView, NodeKey, NodeKeyView,
};
use crate::keys;
use crate::keys::{
    decode_artifact_ref, decode_target_completion_key, ArtifactProducer, ArtifactProducerView,
    ArtifactRef, ArtifactRefView, GeneratingActionKey, GeneratingActionKeyView, Halt, HaltView,
    OwnerAnswer, OwnerAnswerView, TargetCompletionKey, TargetCompletionKeyView,
};
use crate::order;
use crate::order::HasPath;
use crate::outputs;
use crate::outputs::derived_outputs;
use crate::seams::{BlobStore, InMemoryBlobStore};
use crate::target;
use crate::target::{append_label, ConfiguredTargetView};
use crate::text;
use crate::text::append_decimal;
use crate::values;
use crate::values::{
    as_configured_target, ActionValueView, ArtifactValue, ArtifactValueView, FileValue, NodeValue,
    NodeValueView, TargetCompletionValue,
};

verus! {

// ---------------------------------------------------------------------------------------------
// Completion
// ---------------------------------------------------------------------------------------------

/// What a completion needs next, or what it ends with.
#[derive(PartialEq, Eq, Debug)]
pub enum CompletionStep {
    /// These canonical bytes of a target have to be decoded.
    NeedsOwner(Vec<u8>),
    /// The configured target of the key has to be requested.
    NeedsTarget(TargetCompletionKey),
    /// These artifacts have to be requested as one group.
    NeedsArtifacts(Vec<ArtifactRef>),
    Done(ComputeResult),
}

/// What a [`CompletionStep`] stands for.
pub enum CompletionStepView {
    NeedsOwner(Seq<u8>),
    NeedsTarget(TargetCompletionKeyView),
    NeedsArtifacts(Seq<ArtifactRefView>),
    Done(ComputeResultView),
}

impl View for CompletionStep {
    type V = CompletionStepView;

    open spec fn view(&self) -> CompletionStepView {
        match *self {
            CompletionStep::NeedsOwner(frame) => CompletionStepView::NeedsOwner(frame@),
            CompletionStep::NeedsTarget(k) => CompletionStepView::NeedsTarget(k@),
            CompletionStep::NeedsArtifacts(refs) => CompletionStepView::NeedsArtifacts(
                order::views(refs@),
            ),
            CompletionStep::Done(r) => CompletionStepView::Done(r@),
        }
    }
}

/// The failure for a requested artifact whose value is none.
pub open spec fn not_an_artifact() -> ErrorView {
    ErrorView::Invalid { what: "ARTIFACT dep"@, detail: "not an ArtifactValue"@ }
}

/// The value that is there is none of an artifact.
pub open spec fn is_foreign(d: DemandView) -> bool {
    d matches DemandView::Ready(v) && !(v is Artifact)
}

/// The keys of the artifacts that are not there yet, in the order of the requests.
pub open spec fn missing_of(refs: Seq<ArtifactRefView>, demands: Seq<DemandView>) -> Seq<NodeKeyView>
    decreases demands.len(),
{
    if demands.len() == 0 {
        Seq::empty()
    } else {
        let before = missing_of(refs, demands.drop_last());
        if demands.last() is Missing {
            before.push(NodeKeyView::Artifact(refs[demands.len() - 1]))
        } else {
            before
        }
    }
}

/// How a completion starts: with its key.
pub open spec fn completion_started(key: Seq<u8>, answer: OwnerAnswerView) -> CompletionStepView {
    match keys::decoded_target_completion(key, answer) {
        Ok(k) => CompletionStepView::NeedsTarget(k),
        Err(HaltView::NeedsOwner(frame)) => CompletionStepView::NeedsOwner(frame),
        Err(HaltView::Failed(e)) => CompletionStepView::Done(ComputeResultView::Error(e)),
    }
}

/// How a completion goes on with the answer to the request of its target.
pub open spec fn completion_with_target(k: TargetCompletionKeyView, d: DemandView) -> CompletionStepView {
    match d {
        DemandView::Missing => CompletionStepView::Done(
            graph::waiting_for(NodeKeyView::ConfiguredTarget(k.ct)),
        ),
        DemandView::Ready(v) => match values::configured_target_of(v) {
            Err(e) => CompletionStepView::Done(ComputeResultView::Error(e)),
            Ok(ct) => match outputs::outputs_of(k.ct, ct) {
                Err(e) => CompletionStepView::Done(ComputeResultView::Error(e)),
                Ok(refs) => CompletionStepView::NeedsArtifacts(refs),
            },
        },
    }
}

/// What a completion ends with, given the answers to the requests of its artifacts.
pub open spec fn completion_with_artifacts(
    refs: Seq<ArtifactRefView>,
    demands: Seq<DemandView>,
) -> ComputeResultView {
    if exists|i: int| 0 <= i < demands.len() && #[trigger] is_foreign(demands[i]) {
        ComputeResultView::Error(not_an_artifact())
    } else if missing_of(refs, demands).len() > 0 {
        ComputeResultView::Missing { recorded_dep_keys: missing_of(refs, demands) }
    } else {
        ComputeResultView::Ready(NodeValueView::TargetCompletion)
    }
}

/// The completion node: it requests the configured target, then the artifacts that its actions declare
/// as one group, and publishes a sentinel. The requests are the build.
pub struct TargetCompletionFn;

impl TargetCompletionFn {
    /// Decodes the key of the node.
    pub fn start(&self, key: &[u8], answer: OwnerAnswer) -> (s: CompletionStep)
        ensures
            s@ == completion_started(key@, keys::answer_view(answer)),
    {
        match decode_target_completion_key(key, answer) {
            Ok(k) => CompletionStep::NeedsTarget(k),
            Err(Halt::NeedsOwner(frame)) => CompletionStep::NeedsOwner(frame),
            Err(Halt::Failed(e)) => CompletionStep::Done(ComputeResult::Error(e)),
        }
    }

    /// Goes on with the answer to the request of the configured target.
    pub fn with_target(&self, key: TargetCompletionKey, target: Demand) -> (s: CompletionStep)
        ensures
            s@ == completion_with_target(key@, target@),
            target matches Demand::Missing ==> s@ == CompletionStepView::Done(
                ComputeResultView::Missing {
                    recorded_dep_keys: seq![NodeKeyView::ConfiguredTarget(key@.ct)],
                },
            ),
            target@ matches DemandView::Ready(NodeValueView::ConfiguredTarget(ct))
                ==> outputs::outputs_of(key@.ct, ct) matches Ok(refs) ==> s@
                == CompletionStepView::NeedsArtifacts(refs),
    {
        let value = match target {
            Demand::Missing => {
                return CompletionStep::Done(missing_one(NodeKey::ConfiguredTarget(key.ct)));
            },
            Demand::Ready(v) => v,
        };
        let ct = match as_configured_target(&value) {
            Ok(ct) => ct,
            Err(e) => return CompletionStep::Done(ComputeResult::Error(e)),
        };
        match derived_outputs(&key.ct, ct) {
            Ok(refs) => CompletionStep::NeedsArtifacts(refs),
            Err(e) => CompletionStep::Done(ComputeResult::Error(e)),
        }
    }

    /// Ends with the answers to the requests of the artifacts, in the order of the requests.
    pub fn with_artifacts(&self, refs: &Vec<ArtifactRef>, demands: &Vec<Demand>) -> (r: ComputeResult)
        requires
            demands@.len() <= refs@.len(),
        ensures
            r@ == completion_with_artifacts(order::views(refs@), order::views(demands@)),
    {
        let ghost rs = order::views(refs@);
        let ghost ds = order::views(demands@);
        let mut missing: Vec<NodeKey> = Vec::new();
        let n: usize = demands.len();
        assert(order::views(missing@) =~= missing_of(rs, ds.take(0)));
        for i in 0..n
            invariant
                n == demands@.len(),
                n <= refs@.len(),
                rs == order::views(refs@),
                ds == order::views(demands@),
                order::views(missing@) == missing_of(rs, ds.take(i as int)),
                forall|j: int| 0 <= j < i ==> !#[trigger] is_foreign(ds[j]),
        {
            let ghost before = order::views(missing@);
            proof {
                assert(ds.take(i + 1).drop_last() =~= ds.take(i as int));
                assert(ds.take(i + 1).last() == ds[i as int]);
                assert(ds[i as int] == demands@[i as int]@);
                assert(rs[i as int] == refs@[i as int]@);
            }
            match &demands[i] {
                Demand::Missing => {
                    let key = NodeKey::Artifact(refs[i].clone());
                    missing.push(key);
                    assert(order::views(missing@) =~= before.push(key@));
                },
                Demand::Ready(NodeValue::Artifact(_)) => {},
                _ => {
                    assert(is_foreign(ds[i as int]));
                    return ComputeResult::Error(invalid("ARTIFACT dep", "not an ArtifactValue"));
                },
            }
        }
        assert(ds.take(n as int) =~= ds);
        assert(order::views(missing@).len() == missing@.len());
        if missing.len() > 0 {
            return ComputeResult::Missing { recorded_dep_keys: missing };
        }
        ComputeResult::Ready(NodeValue::TargetCompletion(TargetCompletionValue))
    }
}

// ---------------------------------------------------------------------------------------------
// Artifacts
// ---------------------------------------------------------------------------------------------

/// What an artifact needs next, or what it ends with.
#[derive(PartialEq, Eq, Debug)]
pub enum ArtifactStep {
    /// These canonical bytes of a target have to be decoded.
    NeedsOwner(Vec<u8>),
    /// The producer of the artifact has to be requested.
    NeedsProducer(ArtifactRef),
    /// The source file with this path has to be read.
    NeedsBytes(String),
    Done(ComputeResult),
}

/// What an [`ArtifactStep`] stands for.
pub enum ArtifactStepView {
    NeedsOwner(Seq<u8>),
    NeedsProducer(ArtifactRefView),
    NeedsBytes(Seq<char>),
    Done(ComputeResultView),
}

impl View for ArtifactStep {
    type V = ArtifactStepView;

    open spec fn view(&self) -> ArtifactStepView {
        match *self {
            ArtifactStep::NeedsOwner(frame) => ArtifactStepView::NeedsOwner(frame@),
            ArtifactStep::NeedsProducer(a) => ArtifactStepView::NeedsProducer(a@),
            ArtifactStep::NeedsBytes(path) => ArtifactStepView::NeedsBytes(path@),
            ArtifactStep::Done(r) => ArtifactStepView::Done(r@),
        }
    }
}

/// How the reading of a source file ended.
#[derive(PartialEq, Eq, Debug)]
pub enum SourceRead {
    /// The path leads to no place that could be read.
    Unresolved(Error),
    /// The file could not be read, by the description of the failure.
    Unreadable(String),
    /// The bytes of the file and their digest.
    Read { bytes: Vec<u8>, digest: Digest },
}

/// The node that produces an artifact: the file of a source artifact, the action of a derived one.
pub open spec fn producer_key(a: ArtifactRefView) -> NodeKeyView {
    match a.producer {
        ArtifactProducerView::Source => NodeKeyView::File(a.exec_path),
        ArtifactProducerView::Derived(g) => NodeKeyView::Action(g),
    }
}

impl ArtifactRef {
    /// The key of the node that produces the artifact.
    pub fn producer_key(&self) -> (k: NodeKey)
        ensures
            k@ == producer_key(self@),
            match self.producer {
                ArtifactProducer::Source => k@ == NodeKeyView::File(self.exec_path@),
                ArtifactProducer::Derived(g) => k@ == NodeKeyView::Action(g@),
            },
    {
        match &self.producer {
            ArtifactProducer::Source => NodeKey::File(self.exec_path.clone()),
            ArtifactProducer::Derived(g) => NodeKey::Action(g.clone()),
        }
    }
}

/// The failure for an output that its action did not produce.
pub open spec fn not_produced(g: GeneratingActionKeyView, path: Seq<char>) -> ErrorView {
    ErrorView::Invalid {
        what: "derived artifact projection"@,
        detail: "producer "@ + target::target_label(g.owner) + " action #"@ + text::decimal(
            g.action_index as nat,
        ) + " did not produce '"@ + path + "'"@,
    }
}

/// How an artifact starts: with its key.
pub open spec fn artifact_started(key: Seq<u8>, answer: OwnerAnswerView) -> ArtifactStepView {
    match keys::decoded_artifact_ref(key, answer) {
        Ok(a) => ArtifactStepView::NeedsProducer(a),
        Err(HaltView::NeedsOwner(frame)) => ArtifactStepView::NeedsOwner(frame),
        Err(HaltView::Failed(e)) => ArtifactStepView::Done(ComputeResultView::Error(e)),
    }
}

/// How a source artifact goes on with the value of its file.
pub open spec fn source_with_file(path: Seq<char>, v: NodeValueView) -> ArtifactStepView {
    match v {
        NodeValueView::File(f) => if f.exists {
            ArtifactStepView::NeedsBytes(path)
        } else {
            ArtifactStepView::Done(
                ComputeResultView::Error(
                    ErrorView::NotFound { what: "source artifact"@, detail: path },
                ),
            )
        },
        _ => ArtifactStepView::Done(
            ComputeResultView::Error(
                ErrorView::Invalid {
                    what: "FILE value"@,
                    detail: "source-artifact dep was not a FileValue"@,
                },
            ),
        ),
    }
}

/// What a derived artifact ends with, given the value of its action: the one output with its path.
pub open spec fn derived_with_action(
    g: GeneratingActionKeyView,
    path: Seq<char>,
    v: NodeValueView,
) -> ComputeResultView {
    match v {
        NodeValueView::Action(a) => match order::first_with_path(a.outputs, path) {
            Some(o) => ComputeResultView::Ready(
                NodeValueView::Artifact(ArtifactValueView { exec_path: path, digest: o.digest }),
            ),
            None => ComputeResultView::Error(not_produced(g, path)),
        },
        _ => ComputeResultView::Error(
            ErrorView::Invalid { what: "ACTION dep"@, detail: "not an ActionValue"@ },
        ),
    }
}

/// How an artifact goes on with the answer to the request of its producer.
pub open spec fn artifact_with_producer(a: ArtifactRefView, d: DemandView) -> ArtifactStepView {
    match d {
        DemandView::Missing => ArtifactStepView::Done(graph::waiting_for(producer_key(a))),
        DemandView::Ready(v) => match a.producer {
            ArtifactProducerView::Source => source_with_file(a.exec_path, v),
            ArtifactProducerView::Derived(g) => ArtifactStepView::Done(
                derived_with_action(g, a.exec_path, v),
            ),
        },
    }
}

/// What a source artifact ends with, given how the reading of its file ended.
pub open spec fn source_with_bytes(path: Seq<char>, read: SourceRead) -> ComputeResultView {
    match read {
        SourceRead::Unresolved(e) => ComputeResultView::Error(e@),
        SourceRead::Unreadable(text) => ComputeResultView::Error(
            ErrorView::Invalid { what: "read source artifact"@, detail: path + ": "@ + text@ },
        ),
        SourceRead::Read { bytes, digest } => ComputeResultView::Ready(
            NodeValueView::Artifact(ArtifactValueView { exec_path: path, digest: digest@ }),
        ),
    }
}

/// `after` is what a store may be once the reading of a source file ended: with the bytes that were read
/// put into it, or as it was.
pub open spec fn source_stored<B: BlobStore>(before: B, read: SourceRead, after: B) -> bool {
    match read {
        SourceRead::Read { bytes, digest } => before.may_put(digest@, bytes@, &after),
        _ => after == before,
    }
}

/// The failure for an output that its action did not produce.
fn projection_error(g: &GeneratingActionKey, path: &str) -> (e: Error)
    ensures
        e@ == not_produced(g@, path@),
{
    let mut detail = "producer ".to_owned();
    append_label(&mut detail, &g.owner);
    detail.append(" action #");
    append_decimal(&mut detail, g.action_index as u64);
    detail.append(" did not produce '");
    detail.append(path);
    detail.append("'");
    Error::Invalid { what: "derived artifact projection".to_owned(), detail }
}

/// The artifact node: it gives the one path and digest that its producer has for it, and makes nothing
/// up. A source artifact depends on its file, whose bytes go into the store; a derived one on its
/// action.
pub struct ArtifactFn;

impl ArtifactFn {
    /// Decodes the key of the node.
    pub fn start(&self, key: &[u8], answer: OwnerAnswer) -> (s: ArtifactStep)
        ensures
            s@ == artifact_started(key@, keys::answer_view(answer)),
    {
        match decode_artifact_ref(key, answer) {
            Ok(a) => ArtifactStep::NeedsProducer(a),
            Err(Halt::NeedsOwner(frame)) => ArtifactStep::NeedsOwner(frame),
            Err(Halt::Failed(e)) => ArtifactStep::Done(ComputeResult::Error(e)),
        }
    }

    /// Goes on with the answer to the request of the producer.
    pub fn with_producer(&self, a: ArtifactRef, producer: Demand) -> (s: ArtifactStep)
        ensures
            s@ == artifact_with_producer(a@, producer@),
    {
        let value = match producer {
            Demand::Missing => return ArtifactStep::Done(missing_one(a.producer_key())),
            Demand::Ready(v) => v,
        };
        match &a.producer {
            ArtifactProducer::Source => match value {
                NodeValue::File(f) => {
                    if f.exists {
                        ArtifactStep::NeedsBytes(a.exec_path)
                    } else {
                        ArtifactStep::Done(
                            ComputeResult::Error(
                                Error::NotFound {
                                    what: "source artifact".to_owned(),
                                    detail: a.exec_path,
                                },
                            ),
                        )
                    }
                },
                _ => ArtifactStep::Done(
                    ComputeResult::Error(
                        invalid("FILE value", "source-artifact dep was not a FileValue"),
                    ),
                ),
            },
            ArtifactProducer::Derived(g) => match value {
                NodeValue::Action(action) => match action.output(a.exec_path.as_str()) {
                    Some(o) => ArtifactStep::Done(
                        ComputeResult::Ready(
                            NodeValue::Artifact(
                                ArtifactValue {
                                    exec_path: a.exec_path.clone(),
                                    digest: o.digest.clone(),
                                },
                            ),
                        ),
                    ),
                    None => ArtifactStep::Done(
                        ComputeResult::Error(projection_error(g, a.exec_path.as_str())),
                    ),
                },
                _ => ArtifactStep::Done(
                    ComputeResult::Error(invalid("ACTION dep", "not an ActionValue")),
                ),
            },
        }
    }

    /// Ends with how the reading of the source file ended. Bytes that were read go into the store; on a
    /// failure the store stays as it is.
    pub fn with_bytes<B: BlobStore>(
        &self,
        exec_path: String,
        read: SourceRead,
        blobs: &mut B,
    ) -> (r: ComputeResult)
        ensures
            r@ == source_with_bytes(exec_path@, read),
            source_stored(*old(blobs), read, *final(blobs)),
    {
        match read {
            SourceRead::Unresolved(e) => ComputeResult::Error(e),
            SourceRead::Unreadable(text) => {
                let mut detail = exec_path;
                detail.append(": ");
                detail.append(text.as_str());
                ComputeResult::Error(
                    Error::Invalid { what: "read source artifact".to_owned(), detail },
                )
            },
            SourceRead::Read { bytes, digest } => {
                blobs.put(&digest, bytes.as_slice());
                ComputeResult::Ready(NodeValue::Artifact(ArtifactValue { exec_path, digest }))
            },
        }
    }
}

// ---------------------------------------------------------------------------------------------
// Laws
// ---------------------------------------------------------------------------------------------

/// The answer is an artifact value.
pub open spec fn is_artifact(d: DemandView) -> bool {
    d matches DemandView::Ready(NodeValueView::Artifact(_))
}

/// A computation that waits names exactly what it waits for: the key of an artifact is recorded if and
/// only if its request was answered with nothing yet.
pub proof fn law_missing_keys_are_exact(
    refs: Seq<ArtifactRefView>,
    demands: Seq<DemandView>,
    key: NodeKeyView,
)
    requires
        demands.len() <= refs.len(),
    ensures
        missing_of(refs, demands).contains(key) <==> exists|i: int|
            0 <= i < demands.len() && (#[trigger] demands[i]) is Missing && key
                == NodeKeyView::Artifact(refs[i]),
    decreases demands.len(),
{
    if demands.len() > 0 {
        let head = demands.drop_last();
        let last = demands.len() - 1;
        let before = missing_of(refs, head);
        law_missing_keys_are_exact(refs, head, key);
        if before.contains(key) {
            let i = choose|i: int|
                0 <= i < head.len() && (#[trigger] head[i]) is Missing && key
                    == NodeKeyView::Artifact(refs[i]);
            assert(demands[i] is Missing);
            let m = choose|m: int| 0 <= m < before.len() && before[m] == key;
            assert(missing_of(refs, demands)[m] == key);
        }
        if demands[last] is Missing {
            assert(missing_of(refs, demands)[before.len() as int] == NodeKeyView::Artifact(
                refs[last],
            ));
        }
        if missing_of(refs, demands).contains(key) && !before.contains(key) {
            let m = choose|m: int|
                0 <= m < missing_of(refs, demands).len() && missing_of(refs, demands)[m] == key;
            if m < before.len() {
                assert(before[m] == key);
            }
        }
        if exists|i: int|
            0 <= i < demands.len() && (#[trigger] demands[i]) is Missing && key
                == NodeKeyView::Artifact(refs[i]) {
            let i = choose|i: int|
                0 <= i < demands.len() && (#[trigger] demands[i]) is Missing && key
                    == NodeKeyView::Artifact(refs[i]);
            if i < last {
                assert(head[i] is Missing);
            }
        }
    }
}

/// Nothing is recorded as missing if and only if every request was answered with a value.
pub proof fn law_nothing_missing_means_all_ready(
    refs: Seq<ArtifactRefView>,
    demands: Seq<DemandView>,
)
    ensures
        missing_of(refs, demands).len() == 0 <==> forall|i: int|
            0 <= i < demands.len() ==> (#[trigger] demands[i]) is Ready,
    decreases demands.len(),
{
    if demands.len() > 0 {
        let head = demands.drop_last();
        law_nothing_missing_means_all_ready(refs, head);
        if missing_of(refs, demands).len() == 0 {
            assert forall|i: int| 0 <= i < demands.len() implies (#[trigger] demands[i]) is Ready by {
                if i < head.len() {
                    assert(head[i] is Ready);
                }
            }
        }
        if forall|i: int| 0 <= i < demands.len() ==> (#[trigger] demands[i]) is Ready {
            assert forall|i: int| 0 <= i < head.len() implies (#[trigger] head[i]) is Ready by {
                assert(demands[i] is Ready);
            }
            assert(demands[demands.len() - 1] is Ready);
        }
    }
}

/// A target is complete if and only if every artifact that it declares is there: the sentinel is never
/// published before.
pub proof fn law_completion_waits_for_every_artifact(
    refs: Seq<ArtifactRefView>,
    demands: Seq<DemandView>,
)
    requires
        demands.len() == refs.len(),
    ensures
        completion_with_artifacts(refs, demands) == ComputeResultView::Ready(
            NodeValueView::TargetCompletion,
        ) <==> forall|i: int| 0 <= i < refs.len() ==> #[trigger] is_artifact(demands[i]),
        completion_with_artifacts(refs, demands) is Missing ==> exists|i: int|
            0 <= i < refs.len() && (#[trigger] demands[i]) is Missing,
{
    law_nothing_missing_means_all_ready(refs, demands);
    if completion_with_artifacts(refs, demands) is Ready {
        assert forall|i: int| 0 <= i < refs.len() implies #[trigger] is_artifact(demands[i]) by {
            assert(demands[i] is Ready);
            assert(!is_foreign(demands[i]));
        }
    }
    if forall|i: int| 0 <= i < refs.len() ==> #[trigger] is_artifact(demands[i]) {
        assert forall|i: int| 0 <= i < demands.len() implies !#[trigger] is_foreign(demands[i]) by {
            assert(is_artifact(demands[i]));
        }
        assert forall|i: int| 0 <= i < demands.len() implies (#[trigger] demands[i]) is Ready by {
            assert(is_artifact(demands[i]));
        }
    }
}

/// A completion follows its key: it asks for the target that the key encodes, and waits for that target
/// and nothing else while it is not there.
pub proof fn law_completion_follows_its_key(k: TargetCompletionKeyView)
    requires
        keys::target_completion_bytes(k).len() <= usize::MAX,
    ensures
        completion_started(keys::target_completion_bytes(k), None)
            == CompletionStepView::NeedsOwner(k.ct.canonical),
        completion_started(keys::target_completion_bytes(k), Some(Ok(k.ct)))
            == CompletionStepView::NeedsTarget(k),
        completion_with_target(k, DemandView::Missing) == CompletionStepView::Done(
            graph::waiting_for(NodeKeyView::ConfiguredTarget(k.ct)),
        ),
{
    keys::law_target_completion_round_trips(k);
}

/// An artifact follows its key: it comes to its producer, and waits for that producer and nothing else
/// while it is not there.
pub proof fn law_artifact_follows_its_key(a: ArtifactRefView)
    requires
        keys::artifact_ref_bytes(a).len() <= usize::MAX,
    ensures
        match keys::owner_of(a.producer) {
            None => artifact_started(keys::artifact_ref_bytes(a), None)
                == ArtifactStepView::NeedsProducer(a),
            Some(o) => {
                &&& artifact_started(keys::artifact_ref_bytes(a), None)
                    == ArtifactStepView::NeedsOwner(o.canonical)
                &&& artifact_started(keys::artifact_ref_bytes(a), Some(Ok(o)))
                    == ArtifactStepView::NeedsProducer(a)
            },
        },
        artifact_with_producer(a, DemandView::Missing) == ArtifactStepView::Done(
            graph::waiting_for(producer_key(a)),
        ),
{
    keys::law_artifact_ref_round_trips(a);
}

/// An artifact makes nothing up: the value of a derived one has its own path and the digest that its
/// action has for that path.
pub proof fn law_derived_artifact_is_a_projection(
    a: ArtifactRefView,
    d: DemandView,
    v: NodeValueView,
)
    requires
        artifact_with_producer(a, d) == ArtifactStepView::Done(ComputeResultView::Ready(v)),
    ensures
        a.producer is Derived,
        d matches DemandView::Ready(NodeValueView::Action(action)) && order::first_with_path(
            action.outputs,
            a.exec_path,
        ) matches Some(o) && v == NodeValueView::Artifact(
            ArtifactValueView { exec_path: a.exec_path, digest: o.digest },
        ),
{
}

/// A source artifact makes nothing up: it has a value only where its file exists and was read, and the
/// value has its own path and the digest of what was read.
pub proof fn law_source_artifact_is_what_was_read(
    path: Seq<char>,
    file: NodeValueView,
    read: SourceRead,
    v: NodeValueView,
)
    requires
        source_with_bytes(path, read) == ComputeResultView::Ready(v),
    ensures
        read matches SourceRead::Read { bytes, digest } && v == NodeValueView::Artifact(
            ArtifactValueView { exec_path: path, digest: digest@ },
        ),
        source_with_file(path, file) is NeedsBytes <==> (file matches NodeValueView::File(f)
            && f.exists),
{
}

// ---------------------------------------------------------------------------------------------
// Laws of each stage
// ---------------------------------------------------------------------------------------------

/// Steps are seen as what they hold.
pub proof fn law_steps_are_their_contents(c: CompletionStep, a: ArtifactStep)
    ensures
        match c {
            CompletionStep::NeedsOwner(frame) => c@ == CompletionStepView::NeedsOwner(frame@),
            CompletionStep::NeedsTarget(k) => c@ == CompletionStepView::NeedsTarget(k@),
            CompletionStep::NeedsArtifacts(refs) => {
                &&& c@ matches CompletionStepView::NeedsArtifacts(rs)
                &&& rs.len() == refs@.len()
                &&& forall|i: int| 0 <= i < rs.len() ==> #[trigger] rs[i] == refs@[i]@
            },
            CompletionStep::Done(r) => c@ == CompletionStepView::Done(r@),
        },
        match a {
            ArtifactStep::NeedsOwner(frame) => a@ == ArtifactStepView::NeedsOwner(frame@),
            ArtifactStep::NeedsProducer(r) => a@ == ArtifactStepView::NeedsProducer(r@),
            ArtifactStep::NeedsBytes(path) => a@ == ArtifactStepView::NeedsBytes(path@),
            ArtifactStep::Done(r) => a@ == ArtifactStepView::Done(r@),
        },
{
}

/// An artifact requests exactly its own producer: a source artifact the file at its path, a derived one
/// the action that its reference names, owner and index; and while that is not there, it waits for it
/// alone.
pub proof fn law_artifact_requests_its_own_producer(path: Seq<char>, g: GeneratingActionKeyView)
    ensures
        producer_key(
            ArtifactRefView { exec_path: path, producer: ArtifactProducerView::Source },
        ) == NodeKeyView::File(path),
        producer_key(
            ArtifactRefView { exec_path: path, producer: ArtifactProducerView::Derived(g) },
        ) == NodeKeyView::Action(g),
        artifact_with_producer(
            ArtifactRefView { exec_path: path, producer: ArtifactProducerView::Source },
            DemandView::Missing,
        ) == ArtifactStepView::Done(
            ComputeResultView::Missing { recorded_dep_keys: seq![NodeKeyView::File(path)] },
        ),
        artifact_with_producer(
            ArtifactRefView { exec_path: path, producer: ArtifactProducerView::Derived(g) },
            DemandView::Missing,
        ) == ArtifactStepView::Done(
            ComputeResultView::Missing { recorded_dep_keys: seq![NodeKeyView::Action(g)] },
        ),
{
}

/// Two artifacts request one node exactly where they have one producer: source artifacts where their
/// paths are equal, derived ones where their actions are, and never a source and a derived one.
pub proof fn law_producers_are_told_apart(a: ArtifactRefView, b: ArtifactRefView)
    ensures
        producer_key(a) == producer_key(b) <==> match (a.producer, b.producer) {
            (ArtifactProducerView::Source, ArtifactProducerView::Source) => a.exec_path
                == b.exec_path,
            (ArtifactProducerView::Derived(g), ArtifactProducerView::Derived(h)) => g == h,
            _ => false,
        },
{
}

/// With its configured target there, a completion demands every declared output: the artifacts that it
/// asks for are those of the target, all of them, and each path that an action declares is among them,
/// produced by that action.
#[verifier::spinoff_prover]
#[verifier::rlimit(40)]
pub proof fn law_completion_demands_every_output(
    k: TargetCompletionKeyView,
    ct: ConfiguredTargetView,
    action: int,
    path: Seq<char>,
)
    requires
        outputs::outputs_of(k.ct, ct) is Ok,
        0 <= action < ct.actions.len(),
        ct.actions[action].outputs.contains(path),
    ensures
        completion_with_target(k, DemandView::Ready(NodeValueView::ConfiguredTarget(ct))) matches
            CompletionStepView::NeedsArtifacts(refs) && refs == outputs::outputs_of(k.ct, ct)->Ok_0
            && refs.contains(
            ArtifactRefView {
                exec_path: path,
                producer: ArtifactProducerView::Derived(
                    GeneratingActionKeyView { owner: k.ct, action_index: action as u32 },
                ),
            },
        ),
{
    let refs = outputs::outputs_of(k.ct, ct)->Ok_0;
    outputs::law_outputs_are_the_declared_ones(k.ct, ct, action, path);
    let r = ArtifactRefView {
        exec_path: path,
        producer: ArtifactProducerView::Derived(
            GeneratingActionKeyView { owner: k.ct, action_index: action as u32 },
        ),
    };
    assert(refs.contains(r));
}

/// A completion that knows its target asks for all of its outputs, or ends with the conflict among them;
/// a value that is no target ends it, and while there is none it waits for the target alone.
pub proof fn law_completion_follows_its_target(
    k: TargetCompletionKeyView,
    ct: ConfiguredTargetView,
    v: NodeValueView,
)
    ensures
        match outputs::outputs_of(k.ct, ct) {
            Ok(refs) => completion_with_target(
                k,
                DemandView::Ready(NodeValueView::ConfiguredTarget(ct)),
            ) == CompletionStepView::NeedsArtifacts(refs),
            Err(e) => completion_with_target(
                k,
                DemandView::Ready(NodeValueView::ConfiguredTarget(ct)),
            ) == CompletionStepView::Done(ComputeResultView::Error(e)),
        },
        !(v is ConfiguredTarget) ==> completion_with_target(k, DemandView::Ready(v))
            == CompletionStepView::Done(
            ComputeResultView::Error(
                ErrorView::Invalid {
                    what: "CONFIGURED_TARGET dep"@,
                    detail: "not a ConfiguredTarget"@,
                },
            ),
        ),
        completion_with_target(k, DemandView::Missing) == CompletionStepView::Done(
            ComputeResultView::Missing {
                recorded_dep_keys: seq![NodeKeyView::ConfiguredTarget(k.ct)],
            },
        ),
{
}

/// What is recorded as missing grows request by request: an answer that is not there yet adds the key
/// of its artifact behind the others, and an answer that is there adds none.
pub proof fn law_missing_keys_grow_in_order(
    refs: Seq<ArtifactRefView>,
    demands: Seq<DemandView>,
    v: NodeValueView,
)
    ensures
        missing_of(refs, Seq::empty()) == Seq::<NodeKeyView>::empty(),
        missing_of(refs, demands.push(DemandView::Missing)) == missing_of(refs, demands).push(
            NodeKeyView::Artifact(refs[demands.len() as int]),
        ),
        missing_of(refs, demands.push(DemandView::Ready(v))) == missing_of(refs, demands),
{
    assert(demands.push(DemandView::Missing).drop_last() =~= demands);
    assert(demands.push(DemandView::Ready(v)).drop_last() =~= demands);
}

/// What a completion ends with: an error where some artifact has a value that is none, else the keys of
/// those that are not there, in the order of the requests, else the sentinel.
pub proof fn law_completion_ends_by_its_artifacts(
    refs: Seq<ArtifactRefView>,
    demands: Seq<DemandView>,
    i: int,
)
    requires
        0 <= i < demands.len(),
    ensures
        (demands[i] matches DemandView::Ready(v) && !(v is Artifact)) ==> completion_with_artifacts(
            refs,
            demands,
        ) == ComputeResultView::Error(
            ErrorView::Invalid { what: "ARTIFACT dep"@, detail: "not an ArtifactValue"@ },
        ),
        completion_with_artifacts(refs, demands) is Error ==> exists|j: int|
            0 <= j < demands.len() && (#[trigger] demands[j]) is Ready
                && !(demands[j]->Ready_0 is Artifact),
        (demands[i] is Missing && forall|j: int|
            0 <= j < demands.len() && (#[trigger] demands[j]) is Ready ==> demands[j]->Ready_0 is Artifact)
            ==> completion_with_artifacts(refs, demands) == (ComputeResultView::Missing {
            recorded_dep_keys: missing_of(refs, demands),
        }),
{
    law_nothing_missing_means_all_ready(refs, demands);
    if demands[i] is Ready && !(demands[i]->Ready_0 is Artifact) {
        assert(is_foreign(demands[i]));
    }
    if exists|j: int| 0 <= j < demands.len() && #[trigger] is_foreign(demands[j]) {
        let j = choose|j: int| 0 <= j < demands.len() && #[trigger] is_foreign(demands[j]);
        assert(demands[j] is Ready && !(demands[j]->Ready_0 is Artifact));
    }
    if demands[i] is Missing {
        assert(!(demands[i] is Ready));
    }
}

/// How a key starts its node: one that decodes goes to the target, or the producer, of the key; one that
/// lacks an answer asks for the owner; and one that does not decode ends with the failure.
pub proof fn law_nodes_start_with_their_keys(key: Seq<u8>, answer: OwnerAnswerView)
    ensures
        match keys::decoded_target_completion(key, answer) {
            Ok(k) => completion_started(key, answer) == CompletionStepView::NeedsTarget(k),
            Err(HaltView::NeedsOwner(frame)) => completion_started(key, answer)
                == CompletionStepView::NeedsOwner(frame),
            Err(HaltView::Failed(e)) => completion_started(key, answer)
                == CompletionStepView::Done(ComputeResultView::Error(e)),
        },
        match keys::decoded_artifact_ref(key, answer) {
            Ok(a) => artifact_started(key, answer) == ArtifactStepView::NeedsProducer(a),
            Err(HaltView::NeedsOwner(frame)) => artifact_started(key, answer)
                == ArtifactStepView::NeedsOwner(frame),
            Err(HaltView::Failed(e)) => artifact_started(key, answer) == ArtifactStepView::Done(
                ComputeResultView::Error(e),
            ),
        },
{
}

/// What a derived artifact gives for the value of its action: the digest of the first output with its
/// path; where the action produced none, an error that names the action and the path.
pub proof fn law_derived_artifact_has_the_produced_digest(
    g: GeneratingActionKeyView,
    path: Seq<char>,
    action: ActionValueView,
    i: int,
)
    ensures
        (0 <= i < action.outputs.len() && action.outputs[i].path == path && forall|j: int|
            0 <= j < i ==> (#[trigger] action.outputs[j]).path != path) ==> artifact_with_producer(
            ArtifactRefView { exec_path: path, producer: ArtifactProducerView::Derived(g) },
            DemandView::Ready(NodeValueView::Action(action)),
        ) == ArtifactStepView::Done(
            ComputeResultView::Ready(
                NodeValueView::Artifact(
                    ArtifactValueView { exec_path: path, digest: action.outputs[i].digest },
                ),
            ),
        ),
        (forall|j: int| 0 <= j < action.outputs.len() ==> (#[trigger] action.outputs[j]).path != path)
            ==> artifact_with_producer(
            ArtifactRefView { exec_path: path, producer: ArtifactProducerView::Derived(g) },
            DemandView::Ready(NodeValueView::Action(action)),
        ) == ArtifactStepView::Done(
            ComputeResultView::Error(
                ErrorView::Invalid {
                    what: "derived artifact projection"@,
                    detail: "producer "@ + ("//"@ + g.owner.package + ":"@ + g.owner.name)
                        + " action #"@ + text::decimal(g.action_index as nat)
                        + " did not produce '"@ + path + "'"@,
                },
            ),
        ),
{
    let outputs = action.outputs;
    order::law_first_with_path_is_the_first(outputs, path);
    match order::first_with_path(outputs, path) {
        Some(x) => {
            let m = choose|m: int|
                {
                    &&& 0 <= m < outputs.len()
                    &&& #[trigger] outputs[m] == x
                    &&& x.path_of() == path
                    &&& forall|j: int| 0 <= j < m ==> (#[trigger] outputs[j]).path_of() != path
                };
            assert(outputs[m].path == path);
            if 0 <= i < outputs.len() && outputs[i].path == path {
                if i < m {
                    assert(outputs[i].path_of() != path);
                }
            }
        },
        None => {
            if 0 <= i < outputs.len() {
                assert(outputs[i].path_of() != path);
            }
        },
    }
}

/// What the values of producers lead to: a file that exists has to be read, one that does not is not
/// found, and a value of any other kind is an error, as is for a derived artifact any value but that of
/// an action.
pub proof fn law_producers_have_their_own_values(
    path: Seq<char>,
    g: GeneratingActionKeyView,
    f: FileValue,
    v: NodeValueView,
)
    ensures
        ({
            let source = ArtifactRefView { exec_path: path, producer: ArtifactProducerView::Source };
            let derived = ArtifactRefView {
                exec_path: path,
                producer: ArtifactProducerView::Derived(g),
            };
            &&& f.exists ==> artifact_with_producer(
                source,
                DemandView::Ready(NodeValueView::File(f)),
            ) == ArtifactStepView::NeedsBytes(path)
            &&& !f.exists ==> artifact_with_producer(
                source,
                DemandView::Ready(NodeValueView::File(f)),
            ) == ArtifactStepView::Done(
                ComputeResultView::Error(
                    ErrorView::NotFound { what: "source artifact"@, detail: path },
                ),
            )
            &&& !(v is File) ==> artifact_with_producer(source, DemandView::Ready(v))
                == ArtifactStepView::Done(
                ComputeResultView::Error(
                    ErrorView::Invalid {
                        what: "FILE value"@,
                        detail: "source-artifact dep was not a FileValue"@,
                    },
                ),
            )
            &&& !(v is Action) ==> artifact_with_producer(derived, DemandView::Ready(v))
                == ArtifactStepView::Done(
                ComputeResultView::Error(
                    ErrorView::Invalid { what: "ACTION dep"@, detail: "not an ActionValue"@ },
                ),
            )
        }),
{
}

/// What reading a source file leads to: the value with its path and the digest of what was read, or the
/// failure to find or to read it.
pub proof fn law_source_ends_by_its_reading(
    path: Seq<char>,
    e: Error,
    description: String,
    bytes: Vec<u8>,
    digest: Digest,
)
    ensures
        source_with_bytes(path, SourceRead::Unresolved(e)) == ComputeResultView::Error(e@),
        source_with_bytes(path, SourceRead::Unreadable(description)) == ComputeResultView::Error(
            ErrorView::Invalid {
                what: "read source artifact"@,
                detail: path + ": "@ + description@,
            },
        ),
        source_with_bytes(path, SourceRead::Read { bytes, digest }) == ComputeResultView::Ready(
            NodeValueView::Artifact(ArtifactValueView { exec_path: path, digest: digest.hex@ }),
        ),
{
}

/// Bytes that were read are in the store, under their digest, before the artifact has a value: a store in
/// memory gives them back. A failure to read changes no store.
pub proof fn law_read_bytes_are_stored(
    before: InMemoryBlobStore,
    bytes: Vec<u8>,
    digest: Digest,
    after: InMemoryBlobStore,
    e: Error,
    description: String,
)
    ensures
        source_stored(before, SourceRead::Read { bytes, digest }, after) ==> {
            &&& after@.dom().contains(digest.hex@)
            &&& after@[digest.hex@] == bytes@
            &&& forall|d: Seq<char>|
                d != digest.hex@ ==> (#[trigger] after@.dom().contains(d) <==> before@.dom().contains(d))
            &&& forall|d: Seq<char>| d != digest.hex@ ==> #[trigger] after@[d] == before@[d]
        },
        source_stored(before, SourceRead::Unresolved(e), after) <==> after == before,
        source_stored(before, SourceRead::Unreadable(description), after) <==> after == before,
{
}

} // verus!
