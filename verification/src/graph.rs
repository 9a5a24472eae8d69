//! The vocabulary of the graph that the nodes live in: what is requested, what is answered, and what a
//! computation ends with.
use vstd::prelude::*;
use crate::error::{Error, ErrorView};
use crate::keys::{
    ArtifactRef, ArtifactRefView, GeneratingActionKey, GeneratingActionKeyView,
};
use crate::order;
use crate::target::{ConfiguredTargetKey, ConfiguredTargetKeyView};
use crate::values::{NodeValue, NodeValueView};

verus! {

/// The key of a node that is requested.
#[derive(PartialEq, Eq, Hash, PartialOrd, Ord, Debug)]
pub enum NodeKey {
    ConfiguredTarget(ConfiguredTargetKey),
    /// The file node of a path below the root.
    File(String),
    Action(GeneratingActionKey),
    Artifact(ArtifactRef),
}

/// What a [`NodeKey`] stands for.
pub enum NodeKeyView {
    ConfiguredTarget(ConfiguredTargetKeyView),
    File(Seq<char>),
    Action(GeneratingActionKeyView),
    Artifact(ArtifactRefView),
}

impl View for NodeKey {
    type V = NodeKeyView;

    open spec fn view(&self) -> NodeKeyView {
        match *self {
            NodeKey::ConfiguredTarget(k) => NodeKeyView::ConfiguredTarget(k@),
            NodeKey::File(p) => NodeKeyView::File(p@),
            NodeKey::Action(k) => NodeKeyView::Action(k@),
            NodeKey::Artifact(k) => NodeKeyView::Artifact(k@),
        }
    }
}

impl Clone for NodeKey {
    fn clone(&self) -> (r: NodeKey)
        ensures
            r@ == self@,
    {
        match self {
            NodeKey::ConfiguredTarget(k) => NodeKey::ConfiguredTarget(k.clone()),
            NodeKey::File(p) => NodeKey::File(p.clone()),
            NodeKey::Action(k) => NodeKey::Action(k.clone()),
            NodeKey::Artifact(k) => NodeKey::Artifact(k.clone()),
        }
    }
}

/// What the graph answers to a request.
#[derive(PartialEq, Eq, Debug)]
pub enum Demand {
    /// The value is not there yet.
    Missing,
    Ready(NodeValue),
}

/// What a [`Demand`] stands for.
pub enum DemandView {
    Missing,
    Ready(NodeValueView),
}

impl View for Demand {
    type V = DemandView;

    open spec fn view(&self) -> DemandView {
        match *self {
            Demand::Missing => DemandView::Missing,
            Demand::Ready(v) => DemandView::Ready(v@),
        }
    }
}

/// What the computation of a node ends with.
#[derive(PartialEq, Eq, Debug)]
pub enum ComputeResult {
    Ready(NodeValue),
    /// Values that were requested are not there yet: the computation starts again once they are.
    Missing { recorded_dep_keys: Vec<NodeKey> },
    Error(Error),
}

/// What a [`ComputeResult`] stands for.
pub enum ComputeResultView {
    Ready(NodeValueView),
    Missing { recorded_dep_keys: Seq<NodeKeyView> },
    Error(ErrorView),
}

impl View for ComputeResult {
    type V = ComputeResultView;

    open spec fn view(&self) -> ComputeResultView {
        match *self {
            ComputeResult::Ready(v) => ComputeResultView::Ready(v@),
            ComputeResult::Missing { recorded_dep_keys } => ComputeResultView::Missing {
                recorded_dep_keys: order::views(recorded_dep_keys@),
            },
            ComputeResult::Error(e) => ComputeResultView::Error(e@),
        }
    }
}

/// The result of a computation that waits for one value.
pub open spec fn waiting_for(key: NodeKeyView) -> ComputeResultView {
    ComputeResultView::Missing { recorded_dep_keys: seq![key] }
}

/// The result of a computation that waits for one value.
pub fn missing_one(key: NodeKey) -> (r: ComputeResult)
    ensures
        r@ == waiting_for(key@),
{
    let mut keys: Vec<NodeKey> = Vec::new();
    keys.push(key);
    assert(order::views(keys@) =~= seq![key@]);
    ComputeResult::Missing { recorded_dep_keys: keys }
}

/// Keys, answers and results are seen as what they hold.
pub proof fn law_graph_values_are_their_contents(
    k: NodeKey,
    d: Demand,
    r: ComputeResult,
)
    ensures
        match k {
            NodeKey::ConfiguredTarget(t) => k@ == NodeKeyView::ConfiguredTarget(t@),
            NodeKey::File(p) => k@ == NodeKeyView::File(p@),
            NodeKey::Action(g) => k@ == NodeKeyView::Action(g@),
            NodeKey::Artifact(a) => k@ == NodeKeyView::Artifact(a@),
        },
        match d {
            Demand::Missing => d@ == DemandView::Missing,
            Demand::Ready(v) => d@ == DemandView::Ready(v@),
        },
        match r {
            ComputeResult::Ready(v) => r@ == ComputeResultView::Ready(v@),
            ComputeResult::Error(e) => r@ == ComputeResultView::Error(e@),
            ComputeResult::Missing { recorded_dep_keys } => {
                &&& r@ matches ComputeResultView::Missing { recorded_dep_keys: keys }
                &&& keys.len() == recorded_dep_keys@.len()
                &&& forall|i: int|
                    0 <= i < keys.len() ==> #[trigger] keys[i] == recorded_dep_keys@[i]@
            },
        },
{
}

/// A computation that waits for one value names that value and no other.
pub proof fn law_waiting_names_one_key(key: NodeKeyView)
    ensures
        waiting_for(key) matches ComputeResultView::Missing { recorded_dep_keys }
            && recorded_dep_keys.len() == 1 && recorded_dep_keys[0] == key,
{
}

} // verus!
