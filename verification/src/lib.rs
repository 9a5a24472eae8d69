//! The execution nodes of a build graph: actions, the artifacts that they read and produce, and the
//! completion of a target.
//!
//! A completion requests the configured target and the artifacts that its actions declare. An artifact
//! requests its producer, a file or an action, and gives the one path and digest that the producer has
//! for it. An action requests the configured target that owns it, resolves its input paths to artifacts,
//! requests these, fetches their bytes by digest, and only then is spawned. What is not there yet is
//! named as missing, so that the graph can start the computation again; what is malformed, absent or in
//! conflict is a typed error, never an empty value.
//!
//! The key of an action is positional: the owner and the index of the action. The content of an action
//! has its own identity, the [`fingerprint`], whose canonical bytes tell two actions apart.
//!
//! The graph, the analysis, the file system and the strategies that spawn are outside of this crate. A
//! node is a sequence of stages ([`nodes`], [`action`]): each takes what was answered and says what is
//! needed next.
use vstd::prelude::*;

pub mod action;
pub mod codec;
pub mod digest;
pub mod error;
pub mod fingerprint;
pub mod graph;
pub mod keys;
pub mod nodes;
pub mod order;
pub mod outputs;
pub mod seams;
pub mod spawn;
pub mod string_map;
pub mod target;
pub mod text;
pub mod values;

pub use action::{ActionFn, ActionStep};
pub use digest::Digest;
pub use error::Error;
pub use fingerprint::{action_key_from_template, decode_action_key};
pub use fingerprint::{ActionInput, ActionKey, ExecPlatformRef};
pub use graph::{ComputeResult, Demand, NodeKey};
pub use keys::{
    decode_artifact_ref, decode_generating_action_key, decode_target_completion_key,
};
pub use keys::{ArtifactProducer, ArtifactRef, GeneratingActionKey, TargetCompletionKey};
pub use keys::{Halt, KindId, OutputSelection, OwnerAnswer, ACTION, ARTIFACT, TARGET_COMPLETION};
pub use nodes::{ArtifactFn, ArtifactStep, CompletionStep, SourceRead, TargetCompletionFn};
pub use outputs::derived_outputs;
pub use seams::{BlobStore, InMemoryBlobStore, InputResolver, SameTargetOrSourceResolver};
pub use spawn::{ExecError, InputArtifact, SpawnOutput, SpawnRequest, SpawnResult};
pub use string_map::StringMap;
pub use target::{ActionTemplate, ConfiguredTarget, ConfiguredTargetKey, DepOutput};
pub use values::{
    ActionValue, ArtifactValue, FileValue, NodeValue, OutputDigest, TargetCompletionValue,
    ValuePolicy,
};

verus! {

} // verus!
