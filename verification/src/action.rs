//! The decisions of the action node: from its key to the configured target that declares it, to the
//! artifacts that are its inputs, to their bytes, to the spawn, and to the value.
use vstd::prelude::*;
use vstd::string::*;
use crate::error;
use crate::error::{invalid, Error, ErrorView};
use crate::fingerprint;
use crate::fingerprint::{action_key_from_template, ActionInput, ActionInputView, ActionKeyView};
use crate::graph;
use crate::graph::{
    missing_one, ComputeResult, ComputeResultView, Demand, DemandView, NodeKey, NodeKeyView,
};
use crate::keys;
use crate::keys::{
    decode_generating_action_key, ArtifactRef, ArtifactRefView, GeneratingActionKey,
    GeneratingActionKeyView, Halt, HaltView, OwnerAnswer, OwnerAnswerView,
};
use crate::nodes;
use crate::order;
use crate::order::HasPath;
use crate::seams;
use crate::seams::{BlobStore, InMemoryBlobStore, InputResolver, SameTargetOrSourceResolver};
use crate::spawn;
use crate::string_map;
use crate::spawn::{
    map_exec, ExecError, ExecErrorView, InputArtifactView, SpawnOutput, SpawnOutputView, SpawnRequest, SpawnRequestView, SpawnResult,
    SpawnResultView,
};
use crate::target;
use crate::target::{
    append_label, ActionTemplate, ActionTemplateView, ConfiguredTarget, ConfiguredTargetKey,
    ConfiguredTargetKeyView, ConfiguredTargetView,
};
use crate::text;
use crate::text::{append_decimal, text_equal};
use crate::values;
use crate::values::{
    as_configured_target, ActionValue, ActionValueView, ArtifactValue, ArtifactValueView, NodeValue,
    NodeValueView,
};

verus! {

// ---------------------------------------------------------------------------------------------
// Steps
// ---------------------------------------------------------------------------------------------

/// What an action needs next, or what it ends with.
#[derive(PartialEq, Eq, Debug)]
pub enum ActionStep {
    /// These canonical bytes of a target have to be decoded.
    NeedsOwner(Vec<u8>),
    /// The configured target that owns the action has to be requested.
    NeedsTarget(GeneratingActionKey),
    /// The artifacts that are the inputs of the template have to be requested as one group.
    NeedsInputs { template: ActionTemplate, refs: Vec<ArtifactRef> },
    /// The request has to be spawned. The fingerprint is the identity of the action for a cache.
    NeedsSpawn { fingerprint: Vec<u8>, request: SpawnRequest },
    /// What the spawn produced has to be checked against what the request declares.
    NeedsCheck { request: SpawnRequest, result: SpawnResult },
    Done(ComputeResult),
}

/// What an [`ActionStep`] stands for.
pub enum ActionStepView {
    NeedsOwner(Seq<u8>),
    NeedsTarget(GeneratingActionKeyView),
    NeedsInputs { template: ActionTemplateView, refs: Seq<ArtifactRefView> },
    NeedsSpawn { fingerprint: Seq<u8>, request: SpawnRequestView },
    NeedsCheck { request: SpawnRequestView, result: SpawnResultView },
    Done(ComputeResultView),
}

impl View for ActionStep {
    type V = ActionStepView;

    open spec fn view(&self) -> ActionStepView {
        match *self {
            ActionStep::NeedsOwner(frame) => ActionStepView::NeedsOwner(frame@),
            ActionStep::NeedsTarget(k) => ActionStepView::NeedsTarget(k@),
            ActionStep::NeedsInputs { template, refs } => ActionStepView::NeedsInputs {
                template: template@,
                refs: order::views(refs@),
            },
            ActionStep::NeedsSpawn { fingerprint, request } => ActionStepView::NeedsSpawn {
                fingerprint: fingerprint@,
                request: request@,
            },
            ActionStep::NeedsCheck { request, result } => ActionStepView::NeedsCheck {
                request: request@,
                result: result@,
            },
            ActionStep::Done(r) => ActionStepView::Done(r@),
        }
    }
}

// ---------------------------------------------------------------------------------------------
// The template
// ---------------------------------------------------------------------------------------------

/// How an action starts: with its key.
pub open spec fn action_started(key: Seq<u8>, answer: OwnerAnswerView) -> ActionStepView {
    match keys::decoded_action_key(key, answer) {
        Ok(k) => ActionStepView::NeedsTarget(k),
        Err(HaltView::NeedsOwner(frame)) => ActionStepView::NeedsOwner(frame),
        Err(HaltView::Failed(e)) => ActionStepView::Done(ComputeResultView::Error(e)),
    }
}

/// The failure for an index behind the last action of a target.
pub open spec fn out_of_range(k: GeneratingActionKeyView, count: nat) -> ErrorView {
    ErrorView::Invalid {
        what: "ACTION index"@,
        detail: target::target_label(k.owner) + " declares "@ + text::decimal(count)
            + " action(s); index "@ + text::decimal(k.action_index as nat) + " is out of range"@,
    }
}

/// The template of an action and its target, given the answer to the request of the target; or what the
/// computation ends with.
pub open spec fn template_of(k: GeneratingActionKeyView, d: DemandView) -> Result<
    (ActionTemplateView, ConfiguredTargetView),
    ComputeResultView,
> {
    match d {
        DemandView::Missing => Err(graph::waiting_for(NodeKeyView::ConfiguredTarget(k.owner))),
        DemandView::Ready(v) => match values::configured_target_of(v) {
            Err(e) => Err(ComputeResultView::Error(e)),
            Ok(ct) => if k.action_index < ct.actions.len() {
                Ok((ct.actions[k.action_index as int], ct))
            } else {
                Err(ComputeResultView::Error(out_of_range(k, ct.actions.len())))
            },
        },
    }
}

/// The failure for an index behind the last action of a target.
fn index_error(k: &GeneratingActionKey, count: usize) -> (e: Error)
    ensures
        e@ == out_of_range(k@, count as nat),
{
    let mut detail = "".to_owned();
    proof {
        reveal_strlit("");
    }
    append_label(&mut detail, &k.owner);
    assert(detail@ =~= target::target_label(k@.owner));
    detail.append(" declares ");
    append_decimal(&mut detail, count as u64);
    detail.append(" action(s); index ");
    append_decimal(&mut detail, k.action_index as u64);
    detail.append(" is out of range");
    Error::Invalid { what: "ACTION index".to_owned(), detail }
}

// ---------------------------------------------------------------------------------------------
// Resolving the inputs
// ---------------------------------------------------------------------------------------------

/// `r` is what comes of resolving the paths one after the other: all their artifacts, in order, or the
/// failure of the first path that has none.
pub open spec fn inputs_resolved<R: InputResolver>(
    resolver: R,
    owner: ConfiguredTargetKeyView,
    ct: ConfiguredTargetView,
    paths: Seq<Seq<char>>,
    r: Result<Seq<ArtifactRefView>, ErrorView>,
) -> bool {
    match r {
        Ok(refs) => {
            &&& refs.len() == paths.len()
            &&& forall|i: int|
                0 <= i < paths.len() ==> resolver.may_resolve(
                    owner,
                    ct,
                    #[trigger] paths[i],
                    Ok(refs[i]),
                )
        },
        Err(e) => exists|refs: Seq<ArtifactRefView>|
            {
                &&& refs.len() < paths.len()
                &&& #[trigger] inputs_resolved_before(resolver, owner, ct, paths, refs)
                &&& resolver.may_resolve(owner, ct, paths[refs.len() as int], Err(e))
            },
    }
}

/// The first paths lead to the given artifacts.
pub open spec fn inputs_resolved_before<R: InputResolver>(
    resolver: R,
    owner: ConfiguredTargetKeyView,
    ct: ConfiguredTargetView,
    paths: Seq<Seq<char>>,
    refs: Seq<ArtifactRefView>,
) -> bool {
    forall|i: int|
        0 <= i < refs.len() ==> resolver.may_resolve(owner, ct, paths[i], Ok(#[trigger] refs[i]))
}

/// Resolves the input paths of an action, one after the other.
pub fn resolve_inputs<R: InputResolver>(
    resolver: &R,
    owner: &ConfiguredTargetKey,
    ct: &ConfiguredTarget,
    paths: &Vec<String>,
) -> (r: Result<Vec<ArtifactRef>, Error>)
    ensures
        inputs_resolved(
            *resolver,
            owner@,
            ct@,
            text::texts(paths@),
            match r {
                Ok(refs) => Ok(order::views(refs@)),
                Err(e) => Err(e@),
            },
        ),
{
    let ghost all = text::texts(paths@);
    let mut refs: Vec<ArtifactRef> = Vec::new();
    let n: usize = paths.len();
    for i in 0..n
        invariant
            n == paths@.len(),
            all == text::texts(paths@),
            refs@.len() == i,
            inputs_resolved_before(*resolver, owner@, ct@, all, order::views(refs@)),
    {
        let ghost before = order::views(refs@);
        assert(all[i as int] == paths@[i as int]@);
        match resolver.resolve(owner, ct, paths[i].as_str()) {
            Ok(a) => {
                refs.push(a);
                let ghost after = order::views(refs@);
                assert(after =~= before.push(a@));
                assert forall|j: int| 0 <= j < after.len() implies resolver.may_resolve(
                    owner@,
                    ct@,
                    all[j],
                    Ok(#[trigger] after[j]),
                ) by {
                    if j < before.len() {
                        assert(before[j] == after[j]);
                    }
                }
            },
            Err(e) => {
                assert(before.len() == i);
                return Err(e);
            },
        }
    }
    proof {
        let done = order::views(refs@);
        assert(done.len() == all.len());
        assert forall|i: int| 0 <= i < all.len() implies resolver.may_resolve(
            owner@,
            ct@,
            #[trigger] all[i],
            Ok(done[i]),
        ) by {
            assert(done[i] == done[i]);
        }
    }
    Ok(refs)
}

// ---------------------------------------------------------------------------------------------
// The inputs
// ---------------------------------------------------------------------------------------------

/// What is wrong with the answer to the request of an artifact, if anything.
pub open spec fn dep_failure(r: ArtifactRefView, d: DemandView) -> Option<ErrorView> {
    match d {
        DemandView::Missing => None,
        DemandView::Ready(NodeValueView::Artifact(a)) => if a.exec_path == r.exec_path {
            None
        } else {
            Some(
                ErrorView::Invalid {
                    what: "ARTIFACT dep"@,
                    detail: "value path '"@ + a.exec_path
                        + "' does not match the requested ref '"@ + r.exec_path + "'"@,
                },
            )
        },
        DemandView::Ready(_) => Some(nodes::not_an_artifact()),
    }
}

/// What is wrong with the first answer that is wrong, if any is.
pub open spec fn first_failure(refs: Seq<ArtifactRefView>, demands: Seq<DemandView>) -> Option<ErrorView>
    decreases demands.len(),
{
    if demands.len() == 0 {
        None
    } else {
        match first_failure(refs, demands.drop_last()) {
            Some(e) => Some(e),
            None => dep_failure(refs[demands.len() - 1], demands.last()),
        }
    }
}

/// The artifact value that an answer gives.
pub open spec fn served(d: DemandView) -> ArtifactValueView {
    d->Ready_0->Artifact_0
}

/// The values of the inputs, given the answers to their requests; or what the computation ends with.
pub open spec fn inputs_answered(refs: Seq<ArtifactRefView>, demands: Seq<DemandView>) -> Result<
    Seq<ArtifactValueView>,
    ComputeResultView,
> {
    match first_failure(refs, demands) {
        Some(e) => Err(ComputeResultView::Error(e)),
        None => if nodes::missing_of(refs, demands).len() > 0 {
            Err(
                ComputeResultView::Missing {
                    recorded_dep_keys: nodes::missing_of(refs, demands),
                },
            )
        } else {
            Ok(demands.map_values(|d: DemandView| served(d)))
        },
    }
}

/// The failure for an artifact value with another path than the one that was requested.
fn path_error(found: &str, requested: &str) -> (e: Error)
    ensures
        e@ == (ErrorView::Invalid {
            what: "ARTIFACT dep"@,
            detail: "value path '"@ + found@ + "' does not match the requested ref '"@ + requested@
                + "'"@,
        }),
{
    let mut detail = "value path '".to_owned();
    detail.append(found);
    detail.append("' does not match the requested ref '");
    detail.append(requested);
    detail.append("'");
    Error::Invalid { what: "ARTIFACT dep".to_owned(), detail }
}

/// A failure among the first answers is the failure of all of them.
proof fn lemma_failure_stays(refs: Seq<ArtifactRefView>, demands: Seq<DemandView>, n: int)
    requires
        0 <= n <= demands.len(),
        first_failure(refs, demands.take(n)) is Some,
    ensures
        first_failure(refs, demands) == first_failure(refs, demands.take(n)),
    decreases demands.len(),
{
    if n == demands.len() {
        assert(demands.take(n) =~= demands);
    } else {
        assert(demands.drop_last().take(n) =~= demands.take(n));
        lemma_failure_stays(refs, demands.drop_last(), n);
    }
}

/// The values of the inputs of an action, given the answers to their requests in the order of the
/// requests; or what the computation ends with.
pub fn gather_inputs(refs: &Vec<ArtifactRef>, demands: &Vec<Demand>) -> (r: Result<
    Vec<ArtifactValue>,
    ComputeResult,
>)
    requires
        demands@.len() <= refs@.len(),
    ensures
        match r {
            Ok(vs) => inputs_answered(order::views(refs@), order::views(demands@)) == Ok::<
                Seq<ArtifactValueView>,
                ComputeResultView,
            >(order::views(vs@)),
            Err(c) => inputs_answered(order::views(refs@), order::views(demands@)) == Err::<
                Seq<ArtifactValueView>,
                ComputeResultView,
            >(c@),
        },
{
    let ghost rs = order::views(refs@);
    let ghost ds = order::views(demands@);
    let mut missing: Vec<NodeKey> = Vec::new();
    let mut found: Vec<ArtifactValue> = Vec::new();
    let n: usize = demands.len();
    assert(order::views(missing@) =~= nodes::missing_of(rs, ds.take(0)));
    for i in 0..n
        invariant
            n == demands@.len(),
            n <= refs@.len(),
            rs == order::views(refs@),
            ds == order::views(demands@),
            order::views(missing@) == nodes::missing_of(rs, ds.take(i as int)),
            first_failure(rs, ds.take(i as int)) is None,
            missing@.len() == 0 ==> found@.len() == i,
            missing@.len() == 0 ==> forall|j: int|
                0 <= j < i ==> #[trigger] found@[j]@ == served(ds[j]),
    {
        let ghost before = order::views(missing@);
        proof {
            assert(ds.take(i + 1).drop_last() =~= ds.take(i as int));
            assert(ds.take(i + 1).last() == ds[i as int]);
            assert(ds[i as int] == demands@[i as int]@);
            assert(rs[i as int] == refs@[i as int]@);
            assert(before.len() == missing@.len());
        }
        match &demands[i] {
            Demand::Missing => {
                let key = NodeKey::Artifact(refs[i].clone());
                missing.push(key);
                assert(order::views(missing@) =~= before.push(key@));
            },
            Demand::Ready(NodeValue::Artifact(a)) => {
                if !text_equal(a.exec_path.as_str(), refs[i].exec_path.as_str()) {
                    proof {
                        lemma_failure_stays(rs, ds, i + 1);
                    }
                    return Err(
                        ComputeResult::Error(
                            path_error(a.exec_path.as_str(), refs[i].exec_path.as_str()),
                        ),
                    );
                }
                found.push(a.clone());
            },
            _ => {
                proof {
                    lemma_failure_stays(rs, ds, i + 1);
                }
                return Err(
                    ComputeResult::Error(invalid("ARTIFACT dep", "not an ArtifactValue")),
                );
            },
        }
    }
    assert(ds.take(n as int) =~= ds);
    assert(order::views(missing@).len() == missing@.len());
    if missing.len() > 0 {
        return Err(ComputeResult::Missing { recorded_dep_keys: missing });
    }
    assert(order::views(found@) =~= ds.map_values(|d: DemandView| served(d)));
    Ok(found)
}

// ---------------------------------------------------------------------------------------------
// The bytes of the inputs
// ---------------------------------------------------------------------------------------------

/// `r` is what comes of fetching the bytes of the values one after the other: all inputs, in order, or
/// the failure of the first value whose bytes are not there.
pub open spec fn inputs_fetched<B: BlobStore>(
    blobs: B,
    vs: Seq<ArtifactValueView>,
    r: Result<Seq<ActionInputView>, ErrorView>,
) -> bool {
    match r {
        Ok(inputs) => inputs.len() == vs.len() && fetched_before(blobs, vs, inputs),
        Err(e) => exists|inputs: Seq<ActionInputView>|
            {
                &&& inputs.len() < vs.len()
                &&& #[trigger] fetched_before(blobs, vs, inputs)
                &&& blobs.may_get(vs[inputs.len() as int].digest, Err(e))
            },
    }
}

/// The first values have the given bytes.
pub open spec fn fetched_before<B: BlobStore>(
    blobs: B,
    vs: Seq<ArtifactValueView>,
    inputs: Seq<ActionInputView>,
) -> bool {
    forall|i: int|
        0 <= i < inputs.len() ==> {
            &&& (#[trigger] inputs[i]).path == vs[i].exec_path
            &&& blobs.may_get(vs[i].digest, Ok(inputs[i].content))
        }
}

/// Fetches the bytes of the inputs of an action, one after the other.
pub fn fetch_inputs<B: BlobStore>(blobs: &B, found: &Vec<ArtifactValue>) -> (r: Result<
    Vec<ActionInput>,
    Error,
>)
    ensures
        inputs_fetched(
            *blobs,
            order::views(found@),
            match r {
                Ok(inputs) => Ok(order::views(inputs@)),
                Err(e) => Err(e@),
            },
        ),
{
    let ghost vs = order::views(found@);
    let mut inputs: Vec<ActionInput> = Vec::new();
    let n: usize = found.len();
    for i in 0..n
        invariant
            n == found@.len(),
            vs == order::views(found@),
            inputs@.len() == i,
            fetched_before(*blobs, vs, order::views(inputs@)),
    {
        let ghost before = order::views(inputs@);
        assert(vs[i as int] == found@[i as int]@);
        match blobs.get(&found[i].digest) {
            Ok(content) => {
                let item = ActionInput { path: found[i].exec_path.clone(), content };
                inputs.push(item);
                let ghost after = order::views(inputs@);
                assert(after =~= before.push(item@));
                assert forall|j: int| 0 <= j < after.len() implies (#[trigger] after[j]).path
                    == vs[j].exec_path && blobs.may_get(vs[j].digest, Ok(after[j].content)) by {
                    if j < before.len() {
                        assert(before[j] == after[j]);
                    }
                }
            },
            Err(e) => {
                assert(before.len() == i);
                return Err(e);
            },
        }
    }
    assert(order::views(inputs@).len() == n);
    Ok(inputs)
}

// ---------------------------------------------------------------------------------------------
// The spawn
// ---------------------------------------------------------------------------------------------

/// The step is the spawn of a template with its inputs: the fingerprint and the request of their
/// canonical form.
pub open spec fn spawns(
    s: ActionStepView,
    t: ActionTemplateView,
    inputs: Seq<ActionInputView>,
) -> bool {
    exists|key: ActionKeyView|
        {
            &&& #[trigger] fingerprint::canonical_form_of(
                key,
                fingerprint::declared_by_template(t, inputs),
            )
            &&& s == (ActionStepView::NeedsSpawn {
                fingerprint: fingerprint::fingerprint(key),
                request: fingerprint::request_of(key),
            })
        }
}

/// The spawn of a template with its inputs.
pub fn ready_to_spawn(template: &ActionTemplate, inputs: Vec<ActionInput>) -> (s: ActionStep)
    ensures
        spawns(s@, template@, order::views(inputs@)),
{
    let key = action_key_from_template(template, inputs);
    let s = ActionStep::NeedsSpawn { fingerprint: key.encode(), request: key.to_request() };
    assert(fingerprint::canonical_form_of(
        key@,
        fingerprint::declared_by_template(template@, order::views(inputs@)),
    ));
    s
}

/// The step is what the values of the inputs lead to: the failure of the first one whose bytes are not
/// there, or the spawn with the bytes of all of them.
pub open spec fn inputs_lead_to<B: BlobStore>(
    blobs: B,
    vs: Seq<ArtifactValueView>,
    t: ActionTemplateView,
    s: ActionStepView,
) -> bool {
    match s {
        ActionStepView::Done(ComputeResultView::Error(e)) => inputs_fetched(blobs, vs, Err(e)),
        _ => exists|inputs: Seq<ActionInputView>|
            inputs_fetched(blobs, vs, Ok(inputs)) && #[trigger] spawns(s, t, inputs),
    }
}

/// `after` is what a store may be once the bytes of all outputs were put into it, one after the other.
pub open spec fn outputs_stored<B: BlobStore>(
    before: B,
    outputs: Seq<SpawnOutputView>,
    after: B,
) -> bool
    decreases outputs.len(),
{
    if outputs.len() == 0 {
        after == before
    } else {
        exists|between: B|
            {
                &&& outputs_stored(before, outputs.drop_last(), between)
                &&& #[trigger] between.may_put(
                    outputs.last().digest,
                    outputs.last().content,
                    &after,
                )
            }
    }
}

/// Puts the bytes of all outputs of a spawn into the store.
pub fn store_outputs<B: BlobStore>(outputs: &Vec<SpawnOutput>, blobs: &mut B)
    ensures
        outputs_stored(*old(blobs), order::views(outputs@), *final(blobs)),
{
    let ghost all = order::views(outputs@);
    let n: usize = outputs.len();
    for i in 0..n
        invariant
            n == outputs@.len(),
            all == order::views(outputs@),
            outputs_stored(*old(blobs), all.take(i as int), *blobs),
    {
        let ghost between = *blobs;
        blobs.put(&outputs[i].digest, outputs[i].content.as_slice());
        proof {
            assert(all.take(i + 1).drop_last() =~= all.take(i as int));
            assert(all.take(i + 1).last() == outputs@[i as int]@);
            assert(between.may_put(
                all.take(i + 1).last().digest,
                all.take(i + 1).last().content,
                &*blobs,
            ));
        }
    }
    assert(all.take(n as int) =~= all);
}

// ---------------------------------------------------------------------------------------------
// The node
// ---------------------------------------------------------------------------------------------

/// The step is what the answer to the request of the target leads to: what the computation ends with, or
/// the inputs of the template, as the resolver gives them.
pub open spec fn target_leads_to<R: InputResolver>(
    resolver: R,
    k: GeneratingActionKeyView,
    d: DemandView,
    s: ActionStepView,
) -> bool {
    match template_of(k, d) {
        Err(done) => s == ActionStepView::Done(done),
        Ok((t, ct)) => match s {
            ActionStepView::NeedsInputs { template, refs } => {
                &&& template == t
                &&& inputs_resolved(resolver, k.owner, ct, t.inputs, Ok(refs))
            },
            ActionStepView::Done(ComputeResultView::Error(e)) => inputs_resolved(
                resolver,
                k.owner,
                ct,
                t.inputs,
                Err(e),
            ),
            _ => false,
        },
    }
}

/// The step is what the answers to the requests of the inputs lead to.
pub open spec fn answers_lead_to<B: BlobStore>(
    blobs: B,
    t: ActionTemplateView,
    refs: Seq<ArtifactRefView>,
    demands: Seq<DemandView>,
    s: ActionStepView,
) -> bool {
    match inputs_answered(refs, demands) {
        Err(done) => s == ActionStepView::Done(done),
        Ok(vs) => inputs_lead_to(blobs, vs, t, s),
    }
}

/// What the outcome of a spawn leads to: the check of what was produced, or the failure.
pub open spec fn spawn_leads_to(
    request: SpawnRequestView,
    outcome: Result<SpawnResultView, ExecErrorView>,
) -> ActionStepView {
    match outcome {
        Ok(result) => ActionStepView::NeedsCheck { request, result },
        Err(e) => ActionStepView::Done(ComputeResultView::Error(spawn::mapped_exec(e))),
    }
}

/// What the check of a spawn ends with: where it refuses, its failure and the store as it was; where it
/// does not, the value of the spawn and the store with the bytes of all outputs.
pub open spec fn check_ends<B: BlobStore>(
    before: B,
    result: SpawnResultView,
    refused: Option<ExecErrorView>,
    r: ComputeResultView,
    after: B,
) -> bool {
    match refused {
        None => {
            &&& r matches ComputeResultView::Ready(NodeValueView::Action(v))
            &&& values::value_of_spawn(v, result)
            &&& outputs_stored(before, result.outputs, after)
        },
        Some(e) => {
            &&& r == ComputeResultView::Error(spawn::mapped_exec(e))
            &&& after == before
        },
    }
}

/// The action node: it runs one declared action once all its inputs are there.
pub struct ActionFn;

impl ActionFn {
    /// Decodes the key of the node.
    pub fn start(&self, key: &[u8], answer: OwnerAnswer) -> (s: ActionStep)
        ensures
            s@ == action_started(key@, keys::answer_view(answer)),
    {
        match decode_generating_action_key(key, answer) {
            Ok(k) => ActionStep::NeedsTarget(k),
            Err(Halt::NeedsOwner(frame)) => ActionStep::NeedsOwner(frame),
            Err(Halt::Failed(e)) => ActionStep::Done(ComputeResult::Error(e)),
        }
    }

    /// Goes on with the answer to the request of the owner: takes the template by its index and resolves
    /// its input paths.
    pub fn with_target<R: InputResolver>(
        &self,
        key: &GeneratingActionKey,
        target: &Demand,
        resolver: &R,
    ) -> (s: ActionStep)
        ensures
            target_leads_to(*resolver, key@, target@, s@),
            s@ matches ActionStepView::NeedsInputs { template, refs } ==> {
                &&& target@ matches DemandView::Ready(NodeValueView::ConfiguredTarget(ct))
                &&& key.action_index < ct.actions.len()
                &&& template == ct.actions[key.action_index as int]
                &&& refs.len() == template.inputs.len()
            },
    {
        let value = match target {
            Demand::Missing => {
                return ActionStep::Done(missing_one(NodeKey::ConfiguredTarget(key.owner.clone())));
            },
            Demand::Ready(v) => v,
        };
        let ct = match as_configured_target(value) {
            Ok(ct) => ct,
            Err(e) => return ActionStep::Done(ComputeResult::Error(e)),
        };
        let n: usize = ct.actions.len();
        let index: usize = key.action_index as usize;
        if index >= n {
            return ActionStep::Done(ComputeResult::Error(index_error(key, n)));
        }
        assert(ct@.actions[index as int] == ct.actions@[index as int]@);
        let template = ct.actions[index].clone();
        match resolve_inputs(resolver, &key.owner, ct, &template.inputs) {
            Ok(refs) => ActionStep::NeedsInputs { template, refs },
            Err(e) => ActionStep::Done(ComputeResult::Error(e)),
        }
    }

    /// Goes on with the answers to the requests of the inputs, in the order of the requests: fetches
    /// their bytes, and only then asks for the spawn.
    pub fn with_inputs<B: BlobStore>(
        &self,
        template: &ActionTemplate,
        refs: &Vec<ArtifactRef>,
        demands: &Vec<Demand>,
        blobs: &B,
    ) -> (s: ActionStep)
        requires
            demands@.len() <= refs@.len(),
        ensures
            answers_lead_to(
                *blobs,
                template@,
                order::views(refs@),
                order::views(demands@),
                s@,
            ),
    {
        let found = match gather_inputs(refs, demands) {
            Ok(found) => found,
            Err(done) => return ActionStep::Done(done),
        };
        match fetch_inputs(blobs, &found) {
            Ok(inputs) => {
                let s = ready_to_spawn(template, inputs);
                assert(spawns(s@, template@, order::views(inputs@)));
                s
            },
            Err(e) => ActionStep::Done(ComputeResult::Error(e)),
        }
    }

    /// Goes on with what the strategy returned.
    pub fn with_spawn(&self, request: SpawnRequest, outcome: Result<SpawnResult, ExecError>) -> (s:
        ActionStep)
        ensures
            s@ == spawn_leads_to(request@, error::result_view(outcome)),
    {
        match outcome {
            Ok(result) => ActionStep::NeedsCheck { request, result },
            Err(e) => ActionStep::Done(ComputeResult::Error(map_exec(e))),
        }
    }

    /// Ends with the verdict of the check of what the spawn produced. Where it is accepted, the bytes of
    /// all outputs go into the store and the value names their digests; where it is refused, the store
    /// stays as it is.
    pub fn with_check<B: BlobStore>(
        &self,
        result: &SpawnResult,
        verdict: Result<(), ExecError>,
        blobs: &mut B,
    ) -> (r: ComputeResult)
        ensures
            check_ends(
                *old(blobs),
                result@,
                match verdict {
                    Ok(_) => None,
                    Err(e) => Some(e@),
                },
                r@,
                *final(blobs),
            ),
    {
        match verdict {
            Ok(_) => {
                store_outputs(&result.outputs, blobs);
                ComputeResult::Ready(NodeValue::Action(ActionValue::from_spawn(result)))
            },
            Err(e) => ComputeResult::Error(map_exec(e)),
        }
    }
}

// ---------------------------------------------------------------------------------------------
// Laws
// ---------------------------------------------------------------------------------------------

/// An action follows its key: it asks for the owner that the key encodes, and waits for that target and
/// nothing else while it is not there.
pub proof fn law_action_follows_its_key(k: GeneratingActionKeyView)
    requires
        keys::action_key_bytes(k).len() <= usize::MAX,
    ensures
        action_started(keys::action_key_bytes(k), None) == ActionStepView::NeedsOwner(
            k.owner.canonical,
        ),
        action_started(keys::action_key_bytes(k), Some(Ok(k.owner)))
            == ActionStepView::NeedsTarget(k),
        template_of(k, DemandView::Missing) == Err::<
            (ActionTemplateView, ConfiguredTargetView),
            ComputeResultView,
        >(graph::waiting_for(NodeKeyView::ConfiguredTarget(k.owner))),
{
    keys::law_action_key_round_trips(k);
}

/// A content fingerprint names no node: an action that is started with one ends in an error, whatever is
/// answered for the owner.
pub proof fn law_fingerprint_starts_no_action(
    f: ActionKeyView,
    answer: Result<ConfiguredTargetKeyView, ErrorView>,
)
    requires
        fingerprint::fingerprint(f).len() <= usize::MAX,
    ensures
        action_started(fingerprint::fingerprint(f), Some(answer)) matches ActionStepView::Done(
            ComputeResultView::Error(_),
        ),
{
    keys::law_fingerprint_is_no_action_key(f, answer);
}

/// What the policy of this crate resolves paths to, one after the other: all their artifacts, or the
/// failure of the first path that has none.
pub open spec fn resolved_all(
    owner: ConfiguredTargetKeyView,
    ct: ConfiguredTargetView,
    paths: Seq<Seq<char>>,
) -> Result<Seq<ArtifactRefView>, ErrorView>
    decreases paths.len(),
{
    if paths.len() == 0 {
        Ok(Seq::empty())
    } else {
        match resolved_all(owner, ct, paths.drop_last()) {
            Err(e) => Err(e),
            Ok(refs) => match seams::resolved(owner, ct, paths.last()) {
                Err(e) => Err(e),
                Ok(a) => Ok(refs.push(a)),
            },
        }
    }
}

proof fn lemma_resolved_prefix(
    owner: ConfiguredTargetKeyView,
    ct: ConfiguredTargetView,
    paths: Seq<Seq<char>>,
    refs: Seq<ArtifactRefView>,
    n: int,
)
    requires
        0 <= n <= refs.len() <= paths.len(),
        inputs_resolved_before(SameTargetOrSourceResolver, owner, ct, paths, refs),
    ensures
        resolved_all(owner, ct, paths.take(n)) == Ok::<Seq<ArtifactRefView>, ErrorView>(refs.take(n)),
    decreases n,
{
    if n == 0 {
        assert(refs.take(0) =~= Seq::empty());
    } else {
        lemma_resolved_prefix(owner, ct, paths, refs, n - 1);
        assert(paths.take(n).drop_last() =~= paths.take(n - 1));
        assert(paths.take(n).last() == paths[n - 1]);
        assert(SameTargetOrSourceResolver.may_resolve(owner, ct, paths[n - 1], Ok(refs[n - 1])));
        assert(refs.take(n - 1).push(refs[n - 1]) =~= refs.take(n));
    }
}

proof fn lemma_resolved_failure(
    owner: ConfiguredTargetKeyView,
    ct: ConfiguredTargetView,
    paths: Seq<Seq<char>>,
    n: int,
)
    requires
        0 <= n <= paths.len(),
        resolved_all(owner, ct, paths.take(n)) is Err,
    ensures
        resolved_all(owner, ct, paths) == resolved_all(owner, ct, paths.take(n)),
    decreases paths.len(),
{
    if n == paths.len() {
        assert(paths.take(n) =~= paths);
    } else {
        assert(paths.drop_last().take(n) =~= paths.take(n));
        lemma_resolved_failure(owner, ct, paths.drop_last(), n);
    }
}

/// With the policy of this crate there is one outcome of resolving the inputs of an action.
pub proof fn law_resolution_is_determined(
    owner: ConfiguredTargetKeyView,
    ct: ConfiguredTargetView,
    paths: Seq<Seq<char>>,
    r: Result<Seq<ArtifactRefView>, ErrorView>,
)
    requires
        inputs_resolved(SameTargetOrSourceResolver, owner, ct, paths, r),
    ensures
        r == resolved_all(owner, ct, paths),
{
    match r {
        Ok(refs) => {
            assert forall|i: int| 0 <= i < refs.len() implies SameTargetOrSourceResolver.may_resolve(
                owner,
                ct,
                paths[i],
                Ok(#[trigger] refs[i]),
            ) by {
                assert(paths[i] == paths[i]);
            }
            lemma_resolved_prefix(owner, ct, paths, refs, refs.len() as int);
            assert(paths.take(paths.len() as int) =~= paths);
            assert(refs.take(refs.len() as int) =~= refs);
        },
        Err(e) => {
            let refs = choose|refs: Seq<ArtifactRefView>|
                {
                    &&& refs.len() < paths.len()
                    &&& #[trigger] inputs_resolved_before(
                        SameTargetOrSourceResolver,
                        owner,
                        ct,
                        paths,
                        refs,
                    )
                    &&& SameTargetOrSourceResolver.may_resolve(
                        owner,
                        ct,
                        paths[refs.len() as int],
                        Err(e),
                    )
                };
            let n = refs.len() as int;
            lemma_resolved_prefix(owner, ct, paths, refs, n);
            assert(paths.take(n + 1).drop_last() =~= paths.take(n));
            assert(paths.take(n + 1).last() == paths[n]);
            lemma_resolved_failure(owner, ct, paths, n + 1);
        },
    }
}

/// An input that does not lead forward ends the action: no path is skipped, and no input is made up for
/// it. Where all inputs lead forward, each has its artifact.
pub proof fn law_unresolvable_input_ends_the_action(
    owner: ConfiguredTargetKeyView,
    ct: ConfiguredTargetView,
    paths: Seq<Seq<char>>,
)
    ensures
        match resolved_all(owner, ct, paths) {
            Ok(refs) => {
                &&& refs.len() == paths.len()
                &&& forall|i: int|
                    0 <= i < paths.len() ==> seams::is_forward(#[trigger] paths[i])
                        && refs[i].exec_path == paths[i]
            },
            Err(e) => e is Unsupported && exists|i: int|
                0 <= i < paths.len() && !seams::is_forward(#[trigger] paths[i]),
        },
    decreases paths.len(),
{
    if paths.len() > 0 {
        let head = paths.drop_last();
        law_unresolvable_input_ends_the_action(owner, ct, head);
        match resolved_all(owner, ct, head) {
            Ok(refs) => {
                assert forall|i: int| 0 <= i < head.len() implies seams::is_forward(
                    #[trigger] paths[i],
                ) && refs[i].exec_path == paths[i] by {
                    assert(head[i] == paths[i]);
                }
                assert(paths.last() == paths[paths.len() - 1]);
            },
            Err(e) => {
                let i = choose|i: int|
                    0 <= i < head.len() && !seams::is_forward(#[trigger] head[i]);
                assert(paths[i] == head[i]);
            },
        }
    }
}

/// The answer is the value of the requested artifact.
pub open spec fn is_served(r: ArtifactRefView, d: DemandView) -> bool {
    d matches DemandView::Ready(NodeValueView::Artifact(a)) && a.exec_path == r.exec_path
}

proof fn lemma_first_failure(refs: Seq<ArtifactRefView>, demands: Seq<DemandView>)
    ensures
        first_failure(refs, demands) is None <==> forall|i: int|
            0 <= i < demands.len() ==> dep_failure(refs[i], #[trigger] demands[i]) is None,
    decreases demands.len(),
{
    if demands.len() > 0 {
        let head = demands.drop_last();
        lemma_first_failure(refs, head);
        if first_failure(refs, demands) is None {
            assert forall|i: int| 0 <= i < demands.len() implies dep_failure(
                refs[i],
                #[trigger] demands[i],
            ) is None by {
                if i < head.len() {
                    assert(head[i] == demands[i]);
                }
            }
        }
        if forall|i: int|
            0 <= i < demands.len() ==> dep_failure(refs[i], #[trigger] demands[i]) is None {
            assert forall|i: int| 0 <= i < head.len() implies dep_failure(
                refs[i],
                #[trigger] head[i],
            ) is None by {
                assert(head[i] == demands[i]);
            }
            assert(dep_failure(refs[demands.len() - 1], demands[demands.len() - 1]) is None);
        }
    }
}

/// An action gets to its bytes only once every input is there: each request was answered with the value
/// of the artifact that was requested, and these values, in the order of the requests, are what the
/// bytes are fetched for.
pub proof fn law_action_waits_for_every_input(refs: Seq<ArtifactRefView>, demands: Seq<DemandView>)
    requires
        demands.len() == refs.len(),
    ensures
        inputs_answered(refs, demands) is Ok <==> forall|i: int|
            0 <= i < refs.len() ==> is_served(refs[i], #[trigger] demands[i]),
        inputs_answered(refs, demands) matches Ok(vs) ==> vs.len() == refs.len() && forall|i: int|
            0 <= i < refs.len() ==> (#[trigger] vs[i]).exec_path == refs[i].exec_path && demands[i]
                == DemandView::Ready(NodeValueView::Artifact(vs[i])),
{
    lemma_first_failure(refs, demands);
    nodes::law_nothing_missing_means_all_ready(refs, demands);
    if inputs_answered(refs, demands) is Ok {
        assert forall|i: int| 0 <= i < refs.len() implies is_served(refs[i], #[trigger] demands[i]) by {
            assert(demands[i] is Ready);
            assert(dep_failure(refs[i], demands[i]) is None);
        }
    }
    if forall|i: int| 0 <= i < refs.len() ==> is_served(refs[i], #[trigger] demands[i]) {
        assert forall|i: int| 0 <= i < demands.len() implies dep_failure(
            refs[i],
            #[trigger] demands[i],
        ) is None && demands[i] is Ready by {
            assert(is_served(refs[i], demands[i]));
        }
    }
}

/// What a map of blobs gives for artifact values, one after the other: all inputs, or the failure of the
/// first value whose bytes are not there.
pub open spec fn fetched_all(blobs: Map<Seq<char>, Seq<u8>>, vs: Seq<ArtifactValueView>) -> Result<
    Seq<ActionInputView>,
    ErrorView,
>
    decreases vs.len(),
{
    if vs.len() == 0 {
        Ok(Seq::empty())
    } else {
        match fetched_all(blobs, vs.drop_last()) {
            Err(e) => Err(e),
            Ok(inputs) => match seams::looked_up(blobs, vs.last().digest) {
                Err(e) => Err(e),
                Ok(content) => Ok(
                    inputs.push(ActionInputView { path: vs.last().exec_path, content }),
                ),
            },
        }
    }
}

proof fn lemma_fetched_prefix(
    blobs: InMemoryBlobStore,
    vs: Seq<ArtifactValueView>,
    inputs: Seq<ActionInputView>,
    n: int,
)
    requires
        0 <= n <= inputs.len() <= vs.len(),
        fetched_before(blobs, vs, inputs),
    ensures
        fetched_all(blobs@, vs.take(n)) == Ok::<Seq<ActionInputView>, ErrorView>(inputs.take(n)),
    decreases n,
{
    if n == 0 {
        assert(inputs.take(0) =~= Seq::empty());
    } else {
        lemma_fetched_prefix(blobs, vs, inputs, n - 1);
        assert(vs.take(n).drop_last() =~= vs.take(n - 1));
        assert(vs.take(n).last() == vs[n - 1]);
        assert(inputs[n - 1].path == vs[n - 1].exec_path);
        assert(inputs.take(n - 1).push(inputs[n - 1]) =~= inputs.take(n));
    }
}

proof fn lemma_fetched_failure(
    blobs: Map<Seq<char>, Seq<u8>>,
    vs: Seq<ArtifactValueView>,
    n: int,
)
    requires
        0 <= n <= vs.len(),
        fetched_all(blobs, vs.take(n)) is Err,
    ensures
        fetched_all(blobs, vs) == fetched_all(blobs, vs.take(n)),
    decreases vs.len(),
{
    if n == vs.len() {
        assert(vs.take(n) =~= vs);
    } else {
        assert(vs.drop_last().take(n) =~= vs.take(n));
        lemma_fetched_failure(blobs, vs.drop_last(), n);
    }
}

/// With a store in memory there is one outcome of fetching the bytes of the inputs.
pub proof fn law_fetching_is_determined(
    blobs: InMemoryBlobStore,
    vs: Seq<ArtifactValueView>,
    r: Result<Seq<ActionInputView>, ErrorView>,
)
    requires
        inputs_fetched(blobs, vs, r),
    ensures
        r == fetched_all(blobs@, vs),
{
    match r {
        Ok(inputs) => {
            lemma_fetched_prefix(blobs, vs, inputs, inputs.len() as int);
            assert(vs.take(vs.len() as int) =~= vs);
            assert(inputs.take(inputs.len() as int) =~= inputs);
        },
        Err(e) => {
            let inputs = choose|inputs: Seq<ActionInputView>|
                {
                    &&& inputs.len() < vs.len()
                    &&& #[trigger] fetched_before(blobs, vs, inputs)
                    &&& blobs.may_get(vs[inputs.len() as int].digest, Err(e))
                };
            let n = inputs.len() as int;
            lemma_fetched_prefix(blobs, vs, inputs, n);
            assert(vs.take(n + 1).drop_last() =~= vs.take(n));
            assert(vs.take(n + 1).last() == vs[n]);
            lemma_fetched_failure(blobs@, vs, n + 1);
        },
    }
}

/// A digest whose bytes are not there ends the action with a `NotFound`: no input is ever empty in place
/// of missing bytes. Where all bytes are there, each input has its own.
pub proof fn law_missing_bytes_end_the_action(
    blobs: Map<Seq<char>, Seq<u8>>,
    vs: Seq<ArtifactValueView>,
)
    ensures
        match fetched_all(blobs, vs) {
            Ok(inputs) => {
                &&& inputs.len() == vs.len()
                &&& forall|i: int|
                    0 <= i < vs.len() ==> {
                        &&& blobs.dom().contains((#[trigger] vs[i]).digest)
                        &&& inputs[i] == (ActionInputView {
                            path: vs[i].exec_path,
                            content: blobs[vs[i].digest],
                        })
                    }
            },
            Err(e) => e is NotFound && exists|i: int|
                0 <= i < vs.len() && !blobs.dom().contains((#[trigger] vs[i]).digest),
        },
    decreases vs.len(),
{
    if vs.len() > 0 {
        let head = vs.drop_last();
        law_missing_bytes_end_the_action(blobs, head);
        match fetched_all(blobs, head) {
            Ok(inputs) => {
                assert forall|i: int| 0 <= i < head.len() implies blobs.dom().contains(
                    (#[trigger] vs[i]).digest,
                ) && inputs[i] == (ActionInputView {
                    path: vs[i].exec_path,
                    content: blobs[vs[i].digest],
                }) by {
                    assert(head[i] == vs[i]);
                }
                assert(vs.last() == vs[vs.len() - 1]);
            },
            Err(e) => {
                let i = choose|i: int|
                    0 <= i < head.len() && !blobs.dom().contains((#[trigger] head[i]).digest);
                assert(vs[i] == head[i]);
            },
        }
    }
}

/// A template and its inputs have one spawn, and it is the declared one: mnemonic, arguments and
/// environment of the template, its outputs sorted and each named once, and the given inputs sorted by
/// path.
pub proof fn law_spawn_is_the_declared_one(
    t: ActionTemplateView,
    inputs: Seq<ActionInputView>,
    s: ActionStepView,
    other: ActionStepView,
)
    requires
        spawns(s, t, inputs),
        spawns(other, t, inputs),
    ensures
        s == other,
        s matches ActionStepView::NeedsSpawn { fingerprint: _, request } && {
            &&& request.mnemonic == t.mnemonic
            &&& request.argv == t.argv
            &&& request.env == string_map::collected(t.env)
            &&& order::sorted_set_of(t.outputs, request.outputs)
            &&& exists|sorted: Seq<ActionInputView>| #[trigger]
                order::stable_sort_of(inputs, sorted) && request.inputs == sorted.map_values(
                    |i: ActionInputView| InputArtifactView { path: i.path, content: i.content },
                )
        },
{
    let declared = fingerprint::declared_by_template(t, inputs);
    let a = choose|key: ActionKeyView|
        {
            &&& #[trigger] fingerprint::canonical_form_of(key, declared)
            &&& s == (ActionStepView::NeedsSpawn {
                fingerprint: fingerprint::fingerprint(key),
                request: fingerprint::request_of(key),
            })
        };
    let b = choose|key: ActionKeyView|
        {
            &&& #[trigger] fingerprint::canonical_form_of(key, declared)
            &&& other == (ActionStepView::NeedsSpawn {
                fingerprint: fingerprint::fingerprint(key),
                request: fingerprint::request_of(key),
            })
        };
    fingerprint::law_canonical_form_is_unique(declared, a, b);
    assert(order::stable_sort_of(inputs, a.inputs));
}

/// The fingerprint is an identity of the action: two spawns with one fingerprint are one request, down to
/// the bytes of the inputs.
pub proof fn law_fingerprint_identifies_the_spawn(
    t: ActionTemplateView,
    inputs: Seq<ActionInputView>,
    s: ActionStepView,
    other_t: ActionTemplateView,
    other_inputs: Seq<ActionInputView>,
    other: ActionStepView,
)
    requires
        spawns(s, t, inputs),
        spawns(other, other_t, other_inputs),
        s->NeedsSpawn_fingerprint == other->NeedsSpawn_fingerprint,
        s->NeedsSpawn_fingerprint.len() <= usize::MAX,
    ensures
        s == other,
{
    let declared = fingerprint::declared_by_template(t, inputs);
    let a = choose|key: ActionKeyView|
        {
            &&& #[trigger] fingerprint::canonical_form_of(key, declared)
            &&& s == (ActionStepView::NeedsSpawn {
                fingerprint: fingerprint::fingerprint(key),
                request: fingerprint::request_of(key),
            })
        };
    let declared_other = fingerprint::declared_by_template(other_t, other_inputs);
    let b = choose|key: ActionKeyView|
        {
            &&& #[trigger] fingerprint::canonical_form_of(key, declared_other)
            &&& other == (ActionStepView::NeedsSpawn {
                fingerprint: fingerprint::fingerprint(key),
                request: fingerprint::request_of(key),
            })
        };
    string_map::law_collected_is_the_map(t.env);
    string_map::law_collected_is_the_map(other_t.env);
    fingerprint::law_fingerprint_identifies_the_action(a, b);
}

/// The blobs once the bytes of all outputs were put, one after the other.
pub open spec fn all_put(blobs: Map<Seq<char>, Seq<u8>>, outputs: Seq<SpawnOutputView>) -> Map<
    Seq<char>,
    Seq<u8>,
>
    decreases outputs.len(),
{
    if outputs.len() == 0 {
        blobs
    } else {
        all_put(blobs, outputs.drop_last()).insert(outputs.last().digest, outputs.last().content)
    }
}

/// With a store in memory there is one store after the outputs of a spawn were put into it.
pub proof fn law_storing_is_determined(
    before: InMemoryBlobStore,
    outputs: Seq<SpawnOutputView>,
    after: InMemoryBlobStore,
)
    requires
        outputs_stored(before, outputs, after),
    ensures
        after@ == all_put(before@, outputs),
    decreases outputs.len(),
{
    if outputs.len() > 0 {
        let between = choose|between: InMemoryBlobStore|
            {
                &&& outputs_stored(before, outputs.drop_last(), between)
                &&& #[trigger] between.may_put(
                    outputs.last().digest,
                    outputs.last().content,
                    &after,
                )
            };
        law_storing_is_determined(before, outputs.drop_last(), between);
    }
}

/// Outputs with one digest have the same bytes.
pub open spec fn digests_identify(outputs: Seq<SpawnOutputView>) -> bool {
    forall|i: int, j: int|
        0 <= i < outputs.len() && 0 <= j < outputs.len() && (#[trigger] outputs[i]).digest == (
        #[trigger] outputs[j]).digest ==> outputs[i].content == outputs[j].content
}

proof fn lemma_put_is_there(
    blobs: Map<Seq<char>, Seq<u8>>,
    outputs: Seq<SpawnOutputView>,
    i: int,
)
    requires
        digests_identify(outputs),
        0 <= i < outputs.len(),
    ensures
        seams::looked_up(all_put(blobs, outputs), outputs[i].digest) == Ok::<Seq<u8>, ErrorView>(
            outputs[i].content,
        ),
    decreases outputs.len(),
{
    let head = outputs.drop_last();
    let last = outputs.len() - 1;
    assert(outputs[last] == outputs.last());
    if outputs[i].digest != outputs[last].digest {
        assert(head[i] == outputs[i]);
        assert forall|a: int, b: int|
            0 <= a < head.len() && 0 <= b < head.len() && (#[trigger] head[a]).digest == (
            #[trigger] head[b]).digest implies head[a].content == head[b].content by {
            assert(outputs[a].digest == outputs[b].digest);
        }
        lemma_put_is_there(blobs, head, i);
    }
}

proof fn lemma_digested_first(outputs: Seq<SpawnOutputView>, path: Seq<char>)
    ensures
        match order::first_with_path(values::digested(outputs), path) {
            Some(o) => exists|i: int|
                0 <= i < outputs.len() && (#[trigger] outputs[i]).path == path && outputs[i].digest
                    == o.digest && forall|j: int| 0 <= j < i ==> (#[trigger] outputs[j]).path != path,
            None => forall|i: int| 0 <= i < outputs.len() ==> (#[trigger] outputs[i]).path != path,
        },
    decreases outputs.len(),
{
    let d = values::digested(outputs);
    if outputs.len() > 0 {
        let tail = outputs.drop_first();
        assert(d.drop_first() =~= values::digested(tail));
        lemma_digested_first(tail, path);
        if outputs[0].path != path {
            assert(d[0].path_of() != path);
            match order::first_with_path(values::digested(tail), path) {
                Some(o) => {
                    let i = choose|i: int|
                        0 <= i < tail.len() && (#[trigger] tail[i]).path == path && tail[i].digest
                            == o.digest && forall|j: int|
                            0 <= j < i ==> (#[trigger] tail[j]).path != path;
                    assert(outputs[i + 1] == tail[i]);
                    assert forall|j: int| 0 <= j < i + 1 implies (#[trigger] outputs[j]).path
                        != path by {
                        if j > 0 {
                            assert(tail[j - 1].path != path);
                        }
                    }
                },
                None => {
                    assert forall|j: int| 0 <= j < outputs.len() implies (#[trigger] outputs[
                        j
                    ]).path != path by {
                        if j > 0 {
                            assert(tail[j - 1].path != path);
                        }
                    }
                },
            }
        } else {
            assert(d[0].path_of() == path);
            assert(outputs[0].path == path);
        }
    }
}

/// A derived input comes from its producer: after an action has run, the artifact of each path that it
/// produced has a digest under which the store holds the very bytes that were produced there; and the
/// artifact of any other path is an error.
pub proof fn law_derived_input_materializes(
    g: GeneratingActionKeyView,
    path: Seq<char>,
    result: SpawnResultView,
    v: ActionValueView,
    blobs: Map<Seq<char>, Seq<u8>>,
)
    requires
        values::value_of_spawn(v, result),
        digests_identify(result.outputs),
    ensures
        match nodes::derived_with_action(g, path, NodeValueView::Action(v)) {
            ComputeResultView::Ready(NodeValueView::Artifact(a)) => exists|i: int|
                {
                    &&& 0 <= i < result.outputs.len()
                    &&& (#[trigger] result.outputs[i]).path == path
                    &&& forall|j: int| 0 <= j < i ==> (#[trigger] result.outputs[j]).path != path
                    &&& a.exec_path == path
                    &&& seams::looked_up(all_put(blobs, result.outputs), a.digest) == Ok::<
                        Seq<u8>,
                        ErrorView,
                    >(result.outputs[i].content)
                },
            ComputeResultView::Error(e) => e == nodes::not_produced(g, path) && forall|i: int|
                0 <= i < result.outputs.len() ==> (#[trigger] result.outputs[i]).path != path,
            _ => false,
        },
{
    let outputs = result.outputs;
    values::law_output_is_what_was_produced(result, v, path);
    lemma_digested_first(outputs, path);
    match order::first_with_path(v.outputs, path) {
        Some(o) => {
            let i = choose|i: int|
                0 <= i < outputs.len() && (#[trigger] outputs[i]).path == path && outputs[i].digest
                    == o.digest && forall|j: int| 0 <= j < i ==> (#[trigger] outputs[j]).path != path;
            lemma_put_is_there(blobs, outputs, i);
            assert(result.outputs[i].path == path);
        },
        None => {},
    }
}

// ---------------------------------------------------------------------------------------------
// Laws of each stage
// ---------------------------------------------------------------------------------------------

/// Steps are seen as what they hold.
pub proof fn law_action_steps_are_their_contents(s: ActionStep)
    ensures
        match s {
            ActionStep::NeedsOwner(frame) => s@ == ActionStepView::NeedsOwner(frame@),
            ActionStep::NeedsTarget(k) => s@ == ActionStepView::NeedsTarget(k@),
            ActionStep::NeedsInputs { template, refs } => {
                &&& s@ matches ActionStepView::NeedsInputs { template: t, refs: rs }
                &&& t == template@
                &&& rs.len() == refs@.len()
                &&& forall|i: int| 0 <= i < rs.len() ==> #[trigger] rs[i] == refs@[i]@
            },
            ActionStep::NeedsSpawn { fingerprint, request } => s@ == (ActionStepView::NeedsSpawn {
                fingerprint: fingerprint@,
                request: request@,
            }),
            ActionStep::NeedsCheck { request, result } => s@ == (ActionStepView::NeedsCheck {
                request: request@,
                result: result@,
            }),
            ActionStep::Done(r) => s@ == ActionStepView::Done(r@),
        },
{
}

/// How a key starts an action: one that decodes goes to its target; one that lacks an answer asks for the
/// owner; and one that does not decode ends with the failure.
pub proof fn law_action_starts_with_its_key(key: Seq<u8>, answer: OwnerAnswerView)
    ensures
        match keys::decoded_action_key(key, answer) {
            Ok(k) => action_started(key, answer) == ActionStepView::NeedsTarget(k),
            Err(HaltView::NeedsOwner(frame)) => action_started(key, answer)
                == ActionStepView::NeedsOwner(frame),
            Err(HaltView::Failed(e)) => action_started(key, answer) == ActionStepView::Done(
                ComputeResultView::Error(e),
            ),
        },
{
}

/// An action is taken by its position: the key with index `i` runs the action that stands at `i` in the
/// list of its target, for every action of every target; an index behind the last action is an error
/// that names the target, the number of its actions and the index.
pub proof fn law_action_is_taken_by_its_index(
    owner: ConfiguredTargetKeyView,
    action_index: u32,
    ct: ConfiguredTargetView,
)
    ensures
        action_index < ct.actions.len() ==> template_of(
            GeneratingActionKeyView { owner, action_index },
            DemandView::Ready(NodeValueView::ConfiguredTarget(ct)),
        ) == Ok::<(ActionTemplateView, ConfiguredTargetView), ComputeResultView>(
            (ct.actions[action_index as int], ct),
        ),
        action_index >= ct.actions.len() ==> template_of(
            GeneratingActionKeyView { owner, action_index },
            DemandView::Ready(NodeValueView::ConfiguredTarget(ct)),
        ) == Err::<(ActionTemplateView, ConfiguredTargetView), ComputeResultView>(
            ComputeResultView::Error(
                ErrorView::Invalid {
                    what: "ACTION index"@,
                    detail: "//"@ + owner.package + ":"@ + owner.name + " declares "@
                        + text::decimal(ct.actions.len()) + " action(s); index "@ + text::decimal(
                        action_index as nat,
                    ) + " is out of range"@,
                },
            ),
        ),
{
}

/// All actions of a target are reached, each by its own key: the templates that the keys with the
/// indices of a target take are, in order, its list of actions.
pub proof fn law_every_action_is_reached(owner: ConfiguredTargetKeyView, ct: ConfiguredTargetView)
    requires
        ct.actions.len() <= u32::MAX,
    ensures
        ct.actions =~= Seq::new(
            ct.actions.len(),
            |i: int|
                template_of(
                    GeneratingActionKeyView { owner, action_index: i as u32 },
                    DemandView::Ready(NodeValueView::ConfiguredTarget(ct)),
                )->Ok_0.0,
        ),
{
}

/// While its target is not there, an action waits for it alone; and a value that is no target ends it.
pub proof fn law_action_needs_its_target(k: GeneratingActionKeyView, v: NodeValueView)
    ensures
        template_of(k, DemandView::Missing) == Err::<
            (ActionTemplateView, ConfiguredTargetView),
            ComputeResultView,
        >(
            ComputeResultView::Missing {
                recorded_dep_keys: seq![NodeKeyView::ConfiguredTarget(k.owner)],
            },
        ),
        !(v is ConfiguredTarget) ==> template_of(k, DemandView::Ready(v)) == Err::<
            (ActionTemplateView, ConfiguredTargetView),
            ComputeResultView,
        >(
            ComputeResultView::Error(
                ErrorView::Invalid {
                    what: "CONFIGURED_TARGET dep"@,
                    detail: "not a ConfiguredTarget"@,
                },
            ),
        ),
{
}

/// Resolving asks the resolver for every path, in order, and takes its answers: the artifacts are one for
/// each path, at its place.
pub proof fn law_every_input_is_resolved<R: InputResolver>(
    resolver: R,
    owner: ConfiguredTargetKeyView,
    ct: ConfiguredTargetView,
    paths: Seq<Seq<char>>,
    refs: Seq<ArtifactRefView>,
)
    ensures
        inputs_resolved(resolver, owner, ct, paths, Ok(refs)) <==> {
            &&& refs.len() == paths.len()
            &&& forall|i: int|
                0 <= i < paths.len() ==> resolver.may_resolve(
                    owner,
                    ct,
                    #[trigger] paths[i],
                    Ok(refs[i]),
                )
        },
{
}

/// Resolving ends with the answer for the first path that has no artifact: all paths before it have one.
pub proof fn law_first_failure_ends_resolving<R: InputResolver>(
    resolver: R,
    owner: ConfiguredTargetKeyView,
    ct: ConfiguredTargetView,
    paths: Seq<Seq<char>>,
    e: ErrorView,
) -> (before: Seq<ArtifactRefView>)
    requires
        inputs_resolved(resolver, owner, ct, paths, Err(e)),
    ensures
        before.len() < paths.len(),
        forall|i: int|
            0 <= i < before.len() ==> resolver.may_resolve(
                owner,
                ct,
                paths[i],
                Ok(#[trigger] before[i]),
            ),
        resolver.may_resolve(owner, ct, paths[before.len() as int], Err(e)),
{
    choose|refs: Seq<ArtifactRefView>|
        {
            &&& refs.len() < paths.len()
            &&& #[trigger] inputs_resolved_before(resolver, owner, ct, paths, refs)
            &&& resolver.may_resolve(owner, ct, paths[refs.len() as int], Err(e))
        }
}

/// With the policy of this crate, the artifacts of the inputs are, path by path, what each path resolves
/// to; and the failure is that of the first path that does not resolve.
pub proof fn law_inputs_resolve_path_by_path(
    owner: ConfiguredTargetKeyView,
    ct: ConfiguredTargetView,
    paths: Seq<Seq<char>>,
    n: int,
)
    ensures
        resolved_all(owner, ct, paths) matches Ok(refs) ==> refs.len() == paths.len() && forall|
            i: int,
        |
            0 <= i < paths.len() ==> seams::resolved(owner, ct, #[trigger] paths[i]) == Ok::<
                ArtifactRefView,
                ErrorView,
            >(refs[i]),
        (0 <= n < paths.len() && seams::resolved(owner, ct, paths[n]) is Err && forall|i: int|
            0 <= i < n ==> seams::resolved(owner, ct, #[trigger] paths[i]) is Ok) ==> (resolved_all(
            owner,
            ct,
            paths,
        ) matches Err(e) && seams::resolved(owner, ct, paths[n]) == Err::<
            ArtifactRefView,
            ErrorView,
        >(e)),
    decreases paths.len(),
{
    if paths.len() > 0 {
        let head = paths.drop_last();
        let last = paths.len() - 1;
        law_inputs_resolve_path_by_path(owner, ct, head, n);
        if let Ok(refs) = resolved_all(owner, ct, paths) {
            let before = resolved_all(owner, ct, head)->Ok_0;
            assert forall|i: int| 0 <= i < paths.len() implies seams::resolved(
                owner,
                ct,
                #[trigger] paths[i],
            ) == Ok::<ArtifactRefView, ErrorView>(refs[i]) by {
                if i < last {
                    assert(head[i] == paths[i]);
                    assert(refs[i] == before[i]);
                }
            }
        }
        if 0 <= n < paths.len() && seams::resolved(owner, ct, paths[n]) is Err && (forall|i: int|
            0 <= i < n ==> seams::resolved(owner, ct, #[trigger] paths[i]) is Ok) {
            if n < last {
                assert(head[n] == paths[n]);
                assert forall|i: int| 0 <= i < n implies seams::resolved(
                    owner,
                    ct,
                    #[trigger] head[i],
                ) is Ok by {
                    assert(head[i] == paths[i]);
                }
            } else {
                match resolved_all(owner, ct, head) {
                    Ok(_) => {},
                    Err(e) => {
                        lemma_resolved_all_err(owner, ct, head);
                        let i = choose|i: int|
                            0 <= i < head.len() && seams::resolved(owner, ct, #[trigger] head[i]) is Err;
                        assert(paths[i] == head[i]);
                    },
                }
            }
        }
    }
}

proof fn lemma_resolved_all_err(
    owner: ConfiguredTargetKeyView,
    ct: ConfiguredTargetView,
    paths: Seq<Seq<char>>,
)
    requires
        resolved_all(owner, ct, paths) is Err,
    ensures
        exists|i: int|
            0 <= i < paths.len() && seams::resolved(owner, ct, #[trigger] paths[i]) is Err,
    decreases paths.len(),
{
    let head = paths.drop_last();
    if resolved_all(owner, ct, head) is Err {
        lemma_resolved_all_err(owner, ct, head);
        let i = choose|i: int|
            0 <= i < head.len() && seams::resolved(owner, ct, #[trigger] head[i]) is Err;
        assert(paths[i] == head[i]);
    } else {
        assert(paths[paths.len() - 1] == paths.last());
    }
}

/// The first answer that is wrong ends the action: a value that is none of an artifact, or that of an
/// artifact with another path than the one that was requested. Where no answer is wrong and some are not
/// there, the action waits for those.
#[verifier::spinoff_prover]
#[verifier::rlimit(40)]
pub proof fn law_wrong_inputs_end_the_action(
    refs: Seq<ArtifactRefView>,
    demands: Seq<DemandView>,
    i: int,
    found: ArtifactValueView,
)
    requires
        0 <= i < demands.len() <= refs.len(),
        forall|j: int|
            0 <= j < i ==> (#[trigger] demands[j]) is Missing || is_served(refs[j], demands[j]),
    ensures
        (demands[i] is Ready && !(demands[i]->Ready_0 is Artifact)) ==> inputs_answered(refs, demands)
            == Err::<Seq<ArtifactValueView>, ComputeResultView>(
            ComputeResultView::Error(
                ErrorView::Invalid { what: "ARTIFACT dep"@, detail: "not an ArtifactValue"@ },
            ),
        ),
        (demands[i] == DemandView::Ready(NodeValueView::Artifact(found)) && found.exec_path
            != refs[i].exec_path) ==> inputs_answered(refs, demands) == Err::<
            Seq<ArtifactValueView>,
            ComputeResultView,
        >(
            ComputeResultView::Error(
                ErrorView::Invalid {
                    what: "ARTIFACT dep"@,
                    detail: "value path '"@ + found.exec_path
                        + "' does not match the requested ref '"@ + refs[i].exec_path + "'"@,
                },
            ),
        ),
        (demands[i] is Missing && forall|j: int|
            i < j < demands.len() ==> (#[trigger] demands[j]) is Missing || is_served(
                refs[j],
                demands[j],
            )) ==> inputs_answered(refs, demands) == Err::<
            Seq<ArtifactValueView>,
            ComputeResultView,
        >(
            ComputeResultView::Missing { recorded_dep_keys: nodes::missing_of(refs, demands) },
        ),
{
    let part = demands.take(i);
    assert forall|j: int| 0 <= j < part.len() implies dep_failure(
        refs[j],
        #[trigger] part[j],
    ) is None by {
        assert(part[j] == demands[j]);
    }
    lemma_first_failure(refs, part);
    assert(demands.take(i + 1).drop_last() =~= part);
    assert(demands.take(i + 1).last() == demands[i]);
    if dep_failure(refs[i], demands[i]) is Some {
        lemma_failure_stays(refs, demands, i + 1);
    }
    if demands[i] is Missing && (forall|j: int|
        i < j < demands.len() ==> (#[trigger] demands[j]) is Missing || is_served(
            refs[j],
            demands[j],
        )) {
        assert forall|j: int| 0 <= j < demands.len() implies dep_failure(
            refs[j],
            #[trigger] demands[j],
        ) is None by {
            if j < i {
                assert(demands[j] is Missing || is_served(refs[j], demands[j]));
            }
        }
        lemma_first_failure(refs, demands);
        nodes::law_nothing_missing_means_all_ready(refs, demands);
        assert(!(demands[i] is Ready));
    }
}

/// Fetching asks the store for every digest, in order, and takes its answers: each input has the path of
/// its value and the bytes that the store gave for its digest.
pub proof fn law_every_input_is_fetched<B: BlobStore>(
    blobs: B,
    vs: Seq<ArtifactValueView>,
    inputs: Seq<ActionInputView>,
)
    ensures
        inputs_fetched(blobs, vs, Ok(inputs)) <==> {
            &&& inputs.len() == vs.len()
            &&& forall|i: int|
                0 <= i < inputs.len() ==> {
                    &&& (#[trigger] inputs[i]).path == vs[i].exec_path
                    &&& blobs.may_get(vs[i].digest, Ok(inputs[i].content))
                }
        },
{
}

/// Fetching ends with the answer for the first value whose bytes are not given: those of all values
/// before it are.
pub proof fn law_first_failure_ends_fetching<B: BlobStore>(
    blobs: B,
    vs: Seq<ArtifactValueView>,
    e: ErrorView,
) -> (before: Seq<ActionInputView>)
    requires
        inputs_fetched(blobs, vs, Err(e)),
    ensures
        before.len() < vs.len(),
        forall|i: int|
            0 <= i < before.len() ==> blobs.may_get(
                vs[i].digest,
                Ok((#[trigger] before[i]).content),
            ),
        blobs.may_get(vs[before.len() as int].digest, Err(e)),
{
    choose|inputs: Seq<ActionInputView>|
        {
            &&& inputs.len() < vs.len()
            &&& #[trigger] fetched_before(blobs, vs, inputs)
            &&& blobs.may_get(vs[inputs.len() as int].digest, Err(e))
        }
}

/// The failure of fetching from memory names the first digest whose bytes are not there.
pub proof fn law_first_missing_bytes_are_named(
    blobs: Map<Seq<char>, Seq<u8>>,
    vs: Seq<ArtifactValueView>,
    n: int,
)
    requires
        0 <= n < vs.len(),
        !blobs.dom().contains(vs[n].digest),
        forall|i: int| 0 <= i < n ==> blobs.dom().contains((#[trigger] vs[i]).digest),
    ensures
        fetched_all(blobs, vs) == Err::<Seq<ActionInputView>, ErrorView>(
            ErrorView::NotFound { what: "blob"@, detail: vs[n].digest },
        ),
{
    let part = vs.take(n);
    law_missing_bytes_end_the_action(blobs, part);
    if fetched_all(blobs, part) is Err {
        let i = choose|i: int|
            0 <= i < part.len() && !blobs.dom().contains((#[trigger] part[i]).digest);
        assert(part[i] == vs[i]);
    }
    assert(vs.take(n + 1).drop_last() =~= part);
    assert(vs.take(n + 1).last() == vs[n]);
    lemma_fetched_failure(blobs, vs, n + 1);
}

/// With a store in memory the values of the inputs lead to the spawn with exactly their bytes, or to the
/// failure for the first digest whose bytes are not there.
pub proof fn law_memory_leads_to_the_spawn(
    blobs: InMemoryBlobStore,
    vs: Seq<ArtifactValueView>,
    t: ActionTemplateView,
    s: ActionStepView,
)
    requires
        inputs_lead_to(blobs, vs, t, s),
    ensures
        match fetched_all(blobs@, vs) {
            Ok(inputs) => spawns(s, t, inputs),
            Err(e) => s == ActionStepView::Done(ComputeResultView::Error(e)),
        },
{
    match s {
        ActionStepView::Done(ComputeResultView::Error(e)) => {
            law_fetching_is_determined(blobs, vs, Err(e));
        },
        _ => {
            let inputs = choose|inputs: Seq<ActionInputView>|
                inputs_fetched(blobs, vs, Ok(inputs)) && #[trigger] spawns(s, t, inputs);
            law_fetching_is_determined(blobs, vs, Ok(inputs));
        },
    }
}

/// The spawn of a template gets every input that was fetched, with its bytes, and no other; names every
/// output that is declared, and no other; and its fingerprint is that of this very request: it decodes
/// to the same mnemonic, arguments, environment, inputs and outputs, without tools, platform or
/// properties.
pub proof fn law_spawn_gets_inputs_and_fingerprint(
    t: ActionTemplateView,
    inputs: Seq<ActionInputView>,
    s: ActionStepView,
)
    requires
        spawns(s, t, inputs),
        s->NeedsSpawn_fingerprint.len() <= usize::MAX,
    ensures
        s matches ActionStepView::NeedsSpawn { fingerprint: bytes, request } && {
            &&& request.mnemonic == t.mnemonic
            &&& request.argv == t.argv
            &&& request.env == string_map::collected(t.env)
            &&& request.outputs.to_set() == t.outputs.to_set()
            &&& request.inputs.len() == inputs.len()
            &&& forall|i: int|
                0 <= i < inputs.len() ==> request.inputs.contains(
                    InputArtifactView {
                        path: (#[trigger] inputs[i]).path,
                        content: inputs[i].content,
                    },
                )
            &&& fingerprint::decoded_fingerprint(bytes) matches Ok(key)
            &&& key.mnemonic == request.mnemonic
            &&& key.argv == request.argv
            &&& key.env == request.env
            &&& key.outputs == request.outputs
            &&& key.inputs.to_multiset() == inputs.to_multiset()
            &&& key.inputs.len() == request.inputs.len()
            &&& forall|i: int|
                0 <= i < key.inputs.len() ==> (#[trigger] request.inputs[i]) == (InputArtifactView {
                    path: key.inputs[i].path,
                    content: key.inputs[i].content,
                })
            &&& key.tools.len() == 0
            &&& key.exec_platform is None
            &&& key.exec_properties.len() == 0
        },
{
    broadcast use vstd::seq_lib::group_to_multiset_ensures;

    let declared = fingerprint::declared_by_template(t, inputs);
    let key = choose|key: ActionKeyView|
        {
            &&& #[trigger] fingerprint::canonical_form_of(key, declared)
            &&& s == (ActionStepView::NeedsSpawn {
                fingerprint: fingerprint::fingerprint(key),
                request: fingerprint::request_of(key),
            })
        };
    fingerprint::law_canonical_form_keeps_every_dimension(key, declared);
    string_map::law_collected_is_the_map(t.env);
    assert(string_map::ascending_keys(key.exec_properties));
    fingerprint::law_fingerprint_round_trips(key);
    let request = fingerprint::request_of(key);
    assert(key.inputs.len() == inputs.len()) by {
        assert(key.inputs.to_multiset().len() == key.inputs.len());
        assert(inputs.to_multiset().len() == inputs.len());
    }
    assert forall|i: int| 0 <= i < inputs.len() implies request.inputs.contains(
        InputArtifactView { path: (#[trigger] inputs[i]).path, content: inputs[i].content },
    ) by {
        assert(inputs.contains(inputs[i]));
        assert(key.inputs.to_multiset().count(inputs[i]) > 0);
        assert(key.inputs.contains(inputs[i]));
        let j = choose|j: int| 0 <= j < key.inputs.len() && key.inputs[j] == inputs[i];
        assert(request.inputs[j] == (InputArtifactView {
            path: inputs[i].path,
            content: inputs[i].content,
        }));
    }
    assert(key.tools.len() == 0) by {
        assert(key.tools.to_multiset().len() == key.tools.len());
        assert(declared.tools.to_multiset().len() == declared.tools.len());
    }
}

/// Storing goes output by output: without outputs the store stays as it is, and one more output is put
/// into what the store was after the others.
pub proof fn law_outputs_are_stored_one_by_one<B: BlobStore>(
    before: B,
    outputs: Seq<SpawnOutputView>,
    between: B,
    o: SpawnOutputView,
    after: B,
)
    ensures
        outputs_stored(before, Seq::empty(), after) <==> after == before,
        outputs_stored(before, outputs, between) && between.may_put(o.digest, o.content, &after)
            ==> outputs_stored(before, outputs.push(o), after),
{
    assert(outputs.push(o).drop_last() =~= outputs);
    assert(outputs.push(o).last() == o);
}

/// Every output is there after it was put, under its own digest: what a digest leads to is the bytes of
/// the last output with that digest; and a digest that no output has leads to what it led to before.
pub proof fn law_every_output_is_put(
    blobs: Map<Seq<char>, Seq<u8>>,
    outputs: Seq<SpawnOutputView>,
    digest: Seq<char>,
    i: int,
)
    ensures
        (0 <= i < outputs.len() && outputs[i].digest == digest && forall|j: int|
            i < j < outputs.len() ==> (#[trigger] outputs[j]).digest != digest) ==> all_put(
            blobs,
            outputs,
        ).dom().contains(digest) && all_put(blobs, outputs)[digest] == outputs[i].content,
        (forall|j: int| 0 <= j < outputs.len() ==> (#[trigger] outputs[j]).digest != digest) ==> {
            &&& all_put(blobs, outputs).dom().contains(digest) <==> blobs.dom().contains(digest)
            &&& all_put(blobs, outputs)[digest] == blobs[digest]
        },
    decreases outputs.len(),
{
    if outputs.len() > 0 {
        let head = outputs.drop_last();
        let last = outputs.len() - 1;
        law_every_output_is_put(blobs, head, digest, i);
        assert(outputs[last] == outputs.last());
        if 0 <= i < outputs.len() && outputs[i].digest == digest && (forall|j: int|
            i < j < outputs.len() ==> (#[trigger] outputs[j]).digest != digest) {
            if i < last {
                assert(outputs[last].digest != digest);
                assert(head[i] == outputs[i]);
                assert forall|j: int| i < j < head.len() implies (#[trigger] head[j]).digest
                    != digest by {
                    assert(outputs[j].digest != digest);
                }
            }
        }
        if forall|j: int| 0 <= j < outputs.len() ==> (#[trigger] outputs[j]).digest != digest {
            assert(outputs[last].digest != digest);
            assert forall|j: int| 0 <= j < head.len() implies (#[trigger] head[j]).digest
                != digest by {
                assert(outputs[j].digest != digest);
            }
        }
    }
}

/// With its target there, an action asks for its own inputs: the step holds the template at the index of
/// the key and, for each of its input paths in order, the artifact that the resolver gave for this path
/// of this owner; or it is the failure of the first path that has none.
pub proof fn law_action_asks_for_its_own_inputs<R: InputResolver>(
    resolver: R,
    owner: ConfiguredTargetKeyView,
    action_index: u32,
    ct: ConfiguredTargetView,
    s: ActionStepView,
)
    requires
        action_index < ct.actions.len(),
        target_leads_to(
            resolver,
            GeneratingActionKeyView { owner, action_index },
            DemandView::Ready(NodeValueView::ConfiguredTarget(ct)),
            s,
        ),
    ensures
        match s {
            ActionStepView::NeedsInputs { template, refs } => {
                &&& template == ct.actions[action_index as int]
                &&& refs.len() == ct.actions[action_index as int].inputs.len()
                &&& forall|i: int|
                    0 <= i < refs.len() ==> resolver.may_resolve(
                        owner,
                        ct,
                        #[trigger] ct.actions[action_index as int].inputs[i],
                        Ok(refs[i]),
                    )
            },
            ActionStepView::Done(ComputeResultView::Error(e)) => inputs_resolved(
                resolver,
                owner,
                ct,
                ct.actions[action_index as int].inputs,
                Err(e),
            ),
            _ => false,
        },
        ct.actions[action_index as int].inputs.len() == 0 ==> s is NeedsInputs,
{
}

/// With the policy of this crate there is one step, and it is that of the paths: the template at the
/// index with the artifacts that its paths resolve to, or the failure of the first path that does not
/// lead forward.
#[verifier::spinoff_prover]
#[verifier::rlimit(40)]
pub proof fn law_action_step_is_determined(
    owner: ConfiguredTargetKeyView,
    action_index: u32,
    ct: ConfiguredTargetView,
    s: ActionStepView,
)
    requires
        action_index < ct.actions.len(),
        target_leads_to(
            SameTargetOrSourceResolver,
            GeneratingActionKeyView { owner, action_index },
            DemandView::Ready(NodeValueView::ConfiguredTarget(ct)),
            s,
        ),
    ensures
        match resolved_all(owner, ct, ct.actions[action_index as int].inputs) {
            Ok(refs) => s == (ActionStepView::NeedsInputs {
                template: ct.actions[action_index as int],
                refs,
            }),
            Err(e) => s == ActionStepView::Done(ComputeResultView::Error(e)),
        },
{
    let paths = ct.actions[action_index as int].inputs;
    match s {
        ActionStepView::NeedsInputs { template, refs } => {
            law_resolution_is_determined(owner, ct, paths, Ok(refs));
        },
        ActionStepView::Done(ComputeResultView::Error(e)) => {
            law_resolution_is_determined(owner, ct, paths, Err(e));
        },
        _ => {},
    }
}

/// An action that misses its target, has none or an index behind its last action ends there, whatever the
/// resolver.
pub proof fn law_action_ends_without_its_template<R: InputResolver>(
    resolver: R,
    k: GeneratingActionKeyView,
    ct: ConfiguredTargetView,
    v: NodeValueView,
    s: ActionStepView,
)
    ensures
        target_leads_to(resolver, k, DemandView::Missing, s) <==> s == ActionStepView::Done(
            ComputeResultView::Missing {
                recorded_dep_keys: seq![NodeKeyView::ConfiguredTarget(k.owner)],
            },
        ),
        !(v is ConfiguredTarget) && target_leads_to(resolver, k, DemandView::Ready(v), s) ==> (s matches
            ActionStepView::Done(ComputeResultView::Error(e)) && e is Invalid),
        k.action_index >= ct.actions.len() && target_leads_to(
            resolver,
            k,
            DemandView::Ready(NodeValueView::ConfiguredTarget(ct)),
            s,
        ) ==> (s matches ActionStepView::Done(ComputeResultView::Error(e)) && e is Invalid),
{
}

/// An action is spawned only once every input is there and has its bytes, and then with these: with a
/// store in memory, where every request was answered with the value of its artifact and the store holds
/// the bytes of each, the step is the spawn of the template with, for each input in order, the requested
/// path and the bytes under its digest. Where it is a spawn, all that holds.
#[verifier::spinoff_prover]
#[verifier::rlimit(40)]
pub proof fn law_spawn_follows_from_the_inputs(
    blobs: InMemoryBlobStore,
    t: ActionTemplateView,
    refs: Seq<ArtifactRefView>,
    demands: Seq<DemandView>,
    s: ActionStepView,
)
    requires
        demands.len() == refs.len(),
        answers_lead_to(blobs, t, refs, demands, s),
    ensures
        s is NeedsSpawn <==> forall|i: int|
            0 <= i < refs.len() ==> is_served(refs[i], #[trigger] demands[i]) && blobs@.dom().contains(
                demands[i]->Ready_0->Artifact_0.digest,
            ),
        s is NeedsSpawn ==> spawns(
            s,
            t,
            Seq::new(
                refs.len(),
                |i: int|
                    ActionInputView {
                        path: refs[i].exec_path,
                        content: blobs@[demands[i]->Ready_0->Artifact_0.digest],
                    },
            ),
        ),
{
    law_action_waits_for_every_input(refs, demands);
    match inputs_answered(refs, demands) {
        Ok(vs) => {
            law_memory_leads_to_the_spawn(blobs, vs, t, s);
            law_missing_bytes_end_the_action(blobs@, vs);
            match fetched_all(blobs@, vs) {
                Ok(inputs) => {
                    let wanted = Seq::new(
                        refs.len(),
                        |i: int|
                            ActionInputView {
                                path: refs[i].exec_path,
                                content: blobs@[demands[i]->Ready_0->Artifact_0.digest],
                            },
                    );
                    assert forall|i: int| 0 <= i < refs.len() implies inputs[i] == wanted[i] by {
                        assert(vs[i].exec_path == refs[i].exec_path);
                    }
                    assert(inputs =~= wanted);
                    assert forall|i: int| 0 <= i < refs.len() implies is_served(
                        refs[i],
                        #[trigger] demands[i],
                    ) && blobs@.dom().contains(demands[i]->Ready_0->Artifact_0.digest) by {
                        assert(vs[i].exec_path == refs[i].exec_path);
                    }
                },
                Err(e) => {
                    let i = choose|i: int|
                        0 <= i < vs.len() && !blobs@.dom().contains((#[trigger] vs[i]).digest);
                    assert(demands[i] == DemandView::Ready(NodeValueView::Artifact(vs[i])));
                },
            }
        },
        Err(_) => {},
    }
}

/// What a strategy returns goes to the check as it is, with the request that was spawned; a failure of
/// the strategy ends the action.
pub proof fn law_spawned_results_are_checked(
    request: SpawnRequestView,
    result: SpawnResultView,
    e: ExecErrorView,
)
    ensures
        spawn_leads_to(request, Ok(result)) == (ActionStepView::NeedsCheck { request, result }),
        spawn_leads_to(request, Err(e)) matches ActionStepView::Done(
            ComputeResultView::Error(f),
        ) && f == spawn::mapped_exec(e),
{
}

/// A result that the check refuses is an error and leaves nothing in the store; one that it accepts
/// has a value with the exit code of the spawn and one entry for each output, and with a store in memory
/// every output is there under its digest.
#[verifier::spinoff_prover]
#[verifier::rlimit(40)]
pub proof fn law_checked_results_are_kept(
    before: InMemoryBlobStore,
    result: SpawnResultView,
    e: ExecErrorView,
    r: ComputeResultView,
    after: InMemoryBlobStore,
)
    ensures
        check_ends(before, result, Some(e), r, after) <==> r == ComputeResultView::Error(
            spawn::mapped_exec(e),
        ) && after == before,
        check_ends(before, result, None, r, after) ==> {
            &&& r matches ComputeResultView::Ready(NodeValueView::Action(v))
            &&& v.exit_code == result.code
            &&& v.outputs.len() == result.outputs.len()
            &&& forall|i: int|
                0 <= i < result.outputs.len() ==> after@.dom().contains(
                    (#[trigger] result.outputs[i]).digest,
                )
            &&& after@ == all_put(before@, result.outputs)
        },
{
    if check_ends(before, result, None, r, after) {
        law_storing_is_determined(before, result.outputs, after);
        assert forall|i: int| 0 <= i < result.outputs.len() implies after@.dom().contains(
            (#[trigger] result.outputs[i]).digest,
        ) by {
            lemma_put_is_kept(before@, result.outputs, i);
        }
    }
}

proof fn lemma_put_is_kept(
    blobs: Map<Seq<char>, Seq<u8>>,
    outputs: Seq<SpawnOutputView>,
    i: int,
)
    requires
        0 <= i < outputs.len(),
    ensures
        all_put(blobs, outputs).dom().contains(outputs[i].digest),
    decreases outputs.len(),
{
    if i < outputs.len() - 1 {
        assert(outputs.drop_last()[i] == outputs[i]);
        lemma_put_is_kept(blobs, outputs.drop_last(), i);
    }
}

} // verus!
