//! The keys of the execution nodes, their canonical encodings, and decoders that fail closed.
//!
//! A key names its configured target by the target's canonical bytes, in a frame. Only the analysis
//! can turn these bytes into a target key. A decoder that gets to such a frame without an answer
//! therefore halts and hands the frame out; called again with the answer, it goes on.
use vstd::prelude::*;
use vstd::string::*;
use crate::codec;
use crate::codec::{enc_bytes, enc_str, put_u32, Cur};
use crate::error;
use crate::error::{Error, ErrorView};
use crate::fingerprint;
use crate::fingerprint::ActionKeyView;
use crate::target::{ConfiguredTargetKey, ConfiguredTargetKeyView};
use crate::text;
use crate::text::{append_decimal, bytes_equal};

verus! {

/// The number of a kind of node.
pub type KindId = u32;

/// The kind of the nodes that run one action.
pub const ACTION: KindId = 60;

/// The kind of the nodes that give one artifact.
pub const ARTIFACT: KindId = 61;

/// The kind of the nodes that build a target.
pub const TARGET_COMPLETION: KindId = 62;

// ---------------------------------------------------------------------------------------------
// The keys
// ---------------------------------------------------------------------------------------------

/// The key of an action node: the declaring target and the position of the action in its list. An
/// edit of the action or of its inputs leaves the key as it is, so that the node changes in place.
#[derive(PartialEq, Eq, Hash, PartialOrd, Ord, Debug)]
pub struct GeneratingActionKey {
    pub owner: ConfiguredTargetKey,
    pub action_index: u32,
}

/// What a [`GeneratingActionKey`] stands for.
pub struct GeneratingActionKeyView {
    pub owner: ConfiguredTargetKeyView,
    pub action_index: u32,
}

impl View for GeneratingActionKey {
    type V = GeneratingActionKeyView;

    open spec fn view(&self) -> GeneratingActionKeyView {
        GeneratingActionKeyView { owner: self.owner@, action_index: self.action_index }
    }
}

impl Clone for GeneratingActionKey {
    fn clone(&self) -> (r: GeneratingActionKey)
        ensures
            r@ == self@,
    {
        GeneratingActionKey { owner: self.owner.clone(), action_index: self.action_index }
    }
}

/// Who produces the content of an artifact.
#[derive(PartialEq, Eq, Hash, PartialOrd, Ord, Debug)]
pub enum ArtifactProducer {
    /// A source file of the workspace.
    Source,
    /// An action.
    Derived(GeneratingActionKey),
}

/// What an [`ArtifactProducer`] stands for.
pub enum ArtifactProducerView {
    Source,
    Derived(GeneratingActionKeyView),
}

impl View for ArtifactProducer {
    type V = ArtifactProducerView;

    open spec fn view(&self) -> ArtifactProducerView {
        match *self {
            ArtifactProducer::Source => ArtifactProducerView::Source,
            ArtifactProducer::Derived(g) => ArtifactProducerView::Derived(g@),
        }
    }
}

impl Clone for ArtifactProducer {
    fn clone(&self) -> (r: ArtifactProducer)
        ensures
            r@ == self@,
    {
        match self {
            ArtifactProducer::Source => ArtifactProducer::Source,
            ArtifactProducer::Derived(g) => ArtifactProducer::Derived(g.clone()),
        }
    }
}

/// What comes of the constructor of a child of a tree artifact: it is reserved.
pub open spec fn tree_child_of(parent: ArtifactRefView, rel: Seq<char>) -> Result<
    ArtifactProducerView,
    ErrorView,
> {
    Err(
        ErrorView::Unsupported {
            what: "tree artifacts"@,
            detail:
                "TreeChild is a reserved constructor (lockdown R6): tree artifacts are deferred; codec tag 2 is reserved"@,
        },
    )
}

impl ArtifactProducer {
    /// The reserved constructor of a child of a tree artifact. There are no tree artifacts yet: it
    /// fails, whatever it is given.
    pub fn tree_child(_parent: &ArtifactRef, _rel: &str) -> (r: Result<ArtifactProducer, Error>)
        ensures
            error::result_view(r) == tree_child_of(_parent@, _rel@),
            error::result_view(r) == Err::<ArtifactProducerView, ErrorView>(
                ErrorView::Unsupported {
                    what: "tree artifacts"@,
                    detail:
                        "TreeChild is a reserved constructor (lockdown R6): tree artifacts are deferred; codec tag 2 is reserved"@,
                },
            ),
    {
        Err(
            Error::Unsupported {
                what: "tree artifacts",
                detail:
                    "TreeChild is a reserved constructor (lockdown R6): tree artifacts are deferred; codec tag 2 is reserved".to_owned(),
            },
        )
    }
}

/// The identity of an artifact, and the key of its node: a path and who produces it. Its content is
/// no part of it.
#[derive(PartialEq, Eq, Hash, PartialOrd, Ord, Debug)]
pub struct ArtifactRef {
    pub exec_path: String,
    pub producer: ArtifactProducer,
}

/// What an [`ArtifactRef`] stands for.
pub struct ArtifactRefView {
    pub exec_path: Seq<char>,
    pub producer: ArtifactProducerView,
}

impl View for ArtifactRef {
    type V = ArtifactRefView;

    open spec fn view(&self) -> ArtifactRefView {
        ArtifactRefView { exec_path: self.exec_path@, producer: self.producer@ }
    }
}

impl Clone for ArtifactRef {
    fn clone(&self) -> (r: ArtifactRef)
        ensures
            r@ == self@,
    {
        ArtifactRef { exec_path: self.exec_path.clone(), producer: self.producer.clone() }
    }
}

/// Which outputs of a target are to be built.
#[derive(Clone, Copy, PartialEq, Eq, Structural, Hash, PartialOrd, Ord, Debug)]
pub enum OutputSelection {
    /// All outputs that its actions declare.
    Default,
}

/// The key of a completion node: a target and which of its outputs are to be built.
#[derive(PartialEq, Eq, Hash, PartialOrd, Ord, Debug)]
pub struct TargetCompletionKey {
    pub ct: ConfiguredTargetKey,
    pub outputs: OutputSelection,
}

/// What a [`TargetCompletionKey`] stands for.
pub struct TargetCompletionKeyView {
    pub ct: ConfiguredTargetKeyView,
    pub outputs: OutputSelection,
}

impl View for TargetCompletionKey {
    type V = TargetCompletionKeyView;

    open spec fn view(&self) -> TargetCompletionKeyView {
        TargetCompletionKeyView { ct: self.ct@, outputs: self.outputs }
    }
}

impl Clone for TargetCompletionKey {
    fn clone(&self) -> (r: TargetCompletionKey)
        ensures
            r@ == self@,
    {
        TargetCompletionKey { ct: self.ct.clone(), outputs: self.outputs }
    }
}

// ---------------------------------------------------------------------------------------------
// Encoding
// ---------------------------------------------------------------------------------------------

/// The encoding of an action key: the frame of the owner's canonical bytes, and the index.
pub open spec fn action_key_bytes(k: GeneratingActionKeyView) -> Seq<u8> {
    codec::bytes_frame(k.owner.canonical) + codec::be_bytes(k.action_index as nat, 4)
}

/// The encoding of a producer: the byte 0 for a source file, or the byte 1 and the action key.
pub open spec fn producer_bytes(p: ArtifactProducerView) -> Seq<u8> {
    match p {
        ArtifactProducerView::Source => seq![0u8],
        ArtifactProducerView::Derived(g) => seq![1u8] + action_key_bytes(g),
    }
}

/// The encoding of an artifact key: the frame of the path, and the producer.
pub open spec fn artifact_ref_bytes(a: ArtifactRefView) -> Seq<u8> {
    codec::text_frame(a.exec_path) + producer_bytes(a.producer)
}

/// The encoding of a selection: one byte.
pub open spec fn selection_bytes(s: OutputSelection) -> Seq<u8> {
    match s {
        OutputSelection::Default => seq![0u8],
    }
}

/// The encoding of a completion key: the frame of the target's canonical bytes, and the selection.
pub open spec fn target_completion_bytes(k: TargetCompletionKeyView) -> Seq<u8> {
    codec::bytes_frame(k.ct.canonical) + selection_bytes(k.outputs)
}

impl GeneratingActionKey {
    /// The kind of the node that the key names.
    pub fn kind(&self) -> (k: KindId)
        ensures
            k == ACTION,
    {
        ACTION
    }

    /// The canonical encoding.
    pub fn encode(&self) -> (b: Vec<u8>)
        ensures
            b@ == action_key_bytes(self@),
    {
        let mut b: Vec<u8> = Vec::new();
        enc_bytes(&mut b, self.owner.canonical.as_slice());
        put_u32(&mut b, self.action_index);
        assert(b@ =~= action_key_bytes(self@));
        b
    }
}

impl ArtifactRef {
    /// The kind of the node that the key names.
    pub fn kind(&self) -> (k: KindId)
        ensures
            k == ARTIFACT,
    {
        ARTIFACT
    }

    /// The canonical encoding.
    pub fn encode(&self) -> (b: Vec<u8>)
        ensures
            b@ == artifact_ref_bytes(self@),
    {
        let mut b: Vec<u8> = Vec::new();
        enc_str(&mut b, self.exec_path.as_str());
        match &self.producer {
            ArtifactProducer::Source => {
                b.push(0);
            },
            ArtifactProducer::Derived(g) => {
                b.push(1);
                let key = g.encode();
                b.extend_from_slice(key.as_slice());
            },
        }
        assert(b@ =~= artifact_ref_bytes(self@));
        b
    }
}

impl TargetCompletionKey {
    /// The kind of the node that the key names.
    pub fn kind(&self) -> (k: KindId)
        ensures
            k == TARGET_COMPLETION,
    {
        TARGET_COMPLETION
    }

    /// The canonical encoding.
    pub fn encode(&self) -> (b: Vec<u8>)
        ensures
            b@ == target_completion_bytes(self@),
    {
        let mut b: Vec<u8> = Vec::new();
        enc_bytes(&mut b, self.ct.canonical.as_slice());
        match self.outputs {
            OutputSelection::Default => {
                b.push(0);
            },
        }
        assert(b@ =~= target_completion_bytes(self@));
        b
    }
}

// ---------------------------------------------------------------------------------------------
// Decoding
// ---------------------------------------------------------------------------------------------

/// What the analysis says about the canonical bytes of a target: the target key that they encode, or
/// that they encode none. `None` stands for not asked yet.
pub type OwnerAnswer = Option<Result<ConfiguredTargetKey, Error>>;

/// What an answer says.
pub type OwnerAnswerView = Option<Result<ConfiguredTargetKeyView, ErrorView>>;

/// What an answer says.
pub open spec fn answer_view(a: OwnerAnswer) -> OwnerAnswerView {
    match a {
        None => None,
        Some(r) => Some(error::result_view(r)),
    }
}

/// Why a decoder stopped.
#[derive(PartialEq, Eq, Debug)]
pub enum Halt {
    /// The bytes are no key.
    Failed(Error),
    /// These canonical bytes of a target have to be decoded first.
    NeedsOwner(Vec<u8>),
}

/// What a [`Halt`] says.
pub enum HaltView {
    Failed(ErrorView),
    NeedsOwner(Seq<u8>),
}

impl View for Halt {
    type V = HaltView;

    open spec fn view(&self) -> HaltView {
        match *self {
            Halt::Failed(e) => HaltView::Failed(e@),
            Halt::NeedsOwner(frame) => HaltView::NeedsOwner(frame@),
        }
    }
}

/// The target key in the frame at position `i`, and the position after the attempt. The frame has to
/// be the one canonical encoding of the target: no other bytes can stand for it.
pub open spec fn owner_at(b: Seq<u8>, i: int, what: Seq<char>, answer: OwnerAnswerView) -> (
    Result<ConfiguredTargetKeyView, HaltView>,
    int,
) {
    match codec::bytes_at(b, i, what) {
        (Err(e), j) => (Err(HaltView::Failed(e)), j),
        (Ok(frame), j) => match answer {
            None => (Err(HaltView::NeedsOwner(frame)), j),
            Some(Err(e)) => (Err(HaltView::Failed(e)), j),
            Some(Ok(owner)) => if owner.canonical == frame {
                (Ok(owner), j)
            } else {
                (
                    Err(
                        HaltView::Failed(codec::bad(what, "non-canonical owner CT-key frame"@)),
                    ),
                    j,
                )
            },
        },
    }
}

/// The action key at position `i`, and the position after the attempt.
pub open spec fn action_key_at(b: Seq<u8>, i: int, what: Seq<char>, answer: OwnerAnswerView) -> (
    Result<GeneratingActionKeyView, HaltView>,
    int,
) {
    match owner_at(b, i, what, answer) {
        (Err(h), j) => (Err(h), j),
        (Ok(owner), j) => match codec::u32_at(b, j, what) {
            (Err(e), k) => (Err(HaltView::Failed(e)), k),
            (Ok(action_index), k) => (Ok(GeneratingActionKeyView { owner, action_index }), k),
        },
    }
}

/// The producer at position `i`, and the position after the attempt.
pub open spec fn producer_at(b: Seq<u8>, i: int, what: Seq<char>, answer: OwnerAnswerView) -> (
    Result<ArtifactProducerView, HaltView>,
    int,
) {
    match codec::take_at(b, i, 1, what) {
        (Err(e), j) => (Err(HaltView::Failed(e)), j),
        (Ok(tag), j) => if tag[0] == 0 {
            (Ok(ArtifactProducerView::Source), j)
        } else if tag[0] == 1 {
            match action_key_at(b, j, what, answer) {
                (Err(h), k) => (Err(h), k),
                (Ok(g), k) => (Ok(ArtifactProducerView::Derived(g)), k),
            }
        } else if tag[0] == 2 {
            (
                Err(
                    HaltView::Failed(
                        codec::bad(
                            what,
                            "reserved TreeChild producer tag (R6): tree artifacts are deferred"@,
                        ),
                    ),
                ),
                j,
            )
        } else {
            (
                Err(
                    HaltView::Failed(
                        codec::bad(what, "bad producer tag "@ + text::decimal(tag[0] as nat)),
                    ),
                ),
                j,
            )
        },
    }
}

/// The selection at position `i`, and the position after the attempt.
pub open spec fn selection_at(b: Seq<u8>, i: int, what: Seq<char>) -> (
    Result<OutputSelection, HaltView>,
    int,
) {
    match codec::take_at(b, i, 1, what) {
        (Err(e), j) => (Err(HaltView::Failed(e)), j),
        (Ok(tag), j) => if tag[0] == 0 {
            (Ok(OutputSelection::Default), j)
        } else {
            (
                Err(
                    HaltView::Failed(
                        codec::bad(
                            what,
                            "bad output-selection tag "@ + text::decimal(tag[0] as nat),
                        ),
                    ),
                ),
                j,
            )
        },
    }
}

/// What was read, if nothing is left behind it.
pub open spec fn whole<T>(read: (Result<T, HaltView>, int), b: Seq<u8>, what: Seq<char>) -> Result<
    T,
    HaltView,
> {
    match read {
        (Err(h), _) => Err(h),
        (Ok(k), p) => match codec::end_at(b, p, what) {
            Err(e) => Err(HaltView::Failed(e)),
            Ok(_) => Ok(k),
        },
    }
}

/// The action key that a byte string encodes as a whole.
pub open spec fn decoded_action_key(b: Seq<u8>, answer: OwnerAnswerView) -> Result<
    GeneratingActionKeyView,
    HaltView,
> {
    whole(action_key_at(b, 0, "ACTION key"@, answer), b, "ACTION key"@)
}

/// The artifact key at position 0, and the position after the attempt.
pub open spec fn artifact_ref_at(b: Seq<u8>, answer: OwnerAnswerView) -> (
    Result<ArtifactRefView, HaltView>,
    int,
) {
    match codec::text_at(b, 0, "ARTIFACT key"@) {
        (Err(e), j) => (Err(HaltView::Failed(e)), j),
        (Ok(exec_path), j) => match producer_at(b, j, "ARTIFACT key"@, answer) {
            (Err(h), k) => (Err(h), k),
            (Ok(producer), k) => (Ok(ArtifactRefView { exec_path, producer }), k),
        },
    }
}

/// The artifact key that a byte string encodes as a whole.
pub open spec fn decoded_artifact_ref(b: Seq<u8>, answer: OwnerAnswerView) -> Result<
    ArtifactRefView,
    HaltView,
> {
    whole(artifact_ref_at(b, answer), b, "ARTIFACT key"@)
}

/// The completion key at position 0, and the position after the attempt.
pub open spec fn target_completion_at(b: Seq<u8>, answer: OwnerAnswerView) -> (
    Result<TargetCompletionKeyView, HaltView>,
    int,
) {
    match owner_at(b, 0, "TARGET_COMPLETION key"@, answer) {
        (Err(h), j) => (Err(h), j),
        (Ok(ct), j) => match selection_at(b, j, "TARGET_COMPLETION key"@) {
            (Err(h), k) => (Err(h), k),
            (Ok(outputs), k) => (Ok(TargetCompletionKeyView { ct, outputs }), k),
        },
    }
}

/// The completion key that a byte string encodes as a whole.
pub open spec fn decoded_target_completion(b: Seq<u8>, answer: OwnerAnswerView) -> Result<
    TargetCompletionKeyView,
    HaltView,
> {
    whole(target_completion_at(b, answer), b, "TARGET_COMPLETION key"@)
}

/// The next target key.
fn take_owner(c: &mut Cur<'_>, answer: OwnerAnswer) -> (r: Result<ConfiguredTargetKey, Halt>)
    requires
        old(c)@.wf(),
    ensures
        ({
            let (res, pos) = owner_at(
                old(c)@.bytes,
                old(c)@.pos,
                old(c)@.what,
                answer_view(answer),
            );
            &&& error::result_view(r) == res
            &&& final(c)@ == old(c)@.moved(pos)
            &&& final(c)@.wf()
        }),
{
    let frame = match c.bytes() {
        Ok(f) => f,
        Err(e) => return Err(Halt::Failed(e)),
    };
    match answer {
        None => Err(Halt::NeedsOwner(frame)),
        Some(Err(e)) => Err(Halt::Failed(e)),
        Some(Ok(owner)) => {
            if bytes_equal(owner.canonical.as_slice(), frame.as_slice()) {
                Ok(owner)
            } else {
                Err(Halt::Failed(c.err("non-canonical owner CT-key frame")))
            }
        },
    }
}

/// The next action key.
fn take_action_key(c: &mut Cur<'_>, answer: OwnerAnswer) -> (r: Result<GeneratingActionKey, Halt>)
    requires
        old(c)@.wf(),
    ensures
        ({
            let (res, pos) = action_key_at(
                old(c)@.bytes,
                old(c)@.pos,
                old(c)@.what,
                answer_view(answer),
            );
            &&& error::result_view(r) == res
            &&& final(c)@ == old(c)@.moved(pos)
            &&& final(c)@.wf()
        }),
{
    let owner = match take_owner(c, answer) {
        Ok(o) => o,
        Err(h) => return Err(h),
    };
    match c.u32() {
        Ok(action_index) => Ok(GeneratingActionKey { owner, action_index }),
        Err(e) => Err(Halt::Failed(e)),
    }
}

/// The failure for a byte that is none of the known ones.
fn bad_tag(c: &Cur<'_>, label: &str, tag: u8) -> (h: Halt)
    ensures
        h@ == HaltView::Failed(codec::bad(c@.what, label@ + text::decimal(tag as nat))),
{
    let mut detail = label.to_owned();
    append_decimal(&mut detail, tag as u64);
    Halt::Failed(c.err(detail.as_str()))
}

/// Decodes the key of an action node. Bytes that are malformed, truncated or followed by others, and
/// in particular the bytes of a content fingerprint, are a typed `Invalid`.
pub fn decode_generating_action_key(bytes: &[u8], answer: OwnerAnswer) -> (r: Result<
    GeneratingActionKey,
    Halt,
>)
    ensures
        error::result_view(r) == decoded_action_key(bytes@, answer_view(answer)),
{
    let mut c = Cur::new(bytes, "ACTION key");
    let key = match take_action_key(&mut c, answer) {
        Ok(k) => k,
        Err(h) => return Err(h),
    };
    match c.finish() {
        Ok(_) => Ok(key),
        Err(e) => Err(Halt::Failed(e)),
    }
}

/// Decodes the key of an artifact node. The tag that is reserved for children of tree artifacts is a
/// typed `Invalid`, as any other unknown one.
pub fn decode_artifact_ref(bytes: &[u8], answer: OwnerAnswer) -> (r: Result<ArtifactRef, Halt>)
    ensures
        error::result_view(r) == decoded_artifact_ref(bytes@, answer_view(answer)),
{
    let mut c = Cur::new(bytes, "ARTIFACT key");
    let exec_path = match c.str() {
        Ok(p) => p,
        Err(e) => return Err(Halt::Failed(e)),
    };
    let tag: u8 = match c.byte() {
        Ok(t) => t,
        Err(e) => return Err(Halt::Failed(e)),
    };
    let producer = if tag == 0 {
        ArtifactProducer::Source
    } else if tag == 1 {
        match take_action_key(&mut c, answer) {
            Ok(g) => ArtifactProducer::Derived(g),
            Err(h) => return Err(h),
        }
    } else if tag == 2 {
        return Err(
            Halt::Failed(
                c.err("reserved TreeChild producer tag (R6): tree artifacts are deferred"),
            ),
        );
    } else {
        return Err(bad_tag(&c, "bad producer tag ", tag));
    };
    match c.finish() {
        Ok(_) => Ok(ArtifactRef { exec_path, producer }),
        Err(e) => Err(Halt::Failed(e)),
    }
}

/// Decodes the key of a completion node. An unknown selection is a typed `Invalid`.
pub fn decode_target_completion_key(bytes: &[u8], answer: OwnerAnswer) -> (r: Result<
    TargetCompletionKey,
    Halt,
>)
    ensures
        error::result_view(r) == decoded_target_completion(bytes@, answer_view(answer)),
{
    let mut c = Cur::new(bytes, "TARGET_COMPLETION key");
    let ct = match take_owner(&mut c, answer) {
        Ok(o) => o,
        Err(h) => return Err(h),
    };
    let tag: u8 = match c.byte() {
        Ok(t) => t,
        Err(e) => return Err(Halt::Failed(e)),
    };
    if tag != 0 {
        return Err(bad_tag(&c, "bad output-selection tag ", tag));
    }
    match c.finish() {
        Ok(_) => Ok(TargetCompletionKey { ct, outputs: OutputSelection::Default }),
        Err(e) => Err(Halt::Failed(e)),
    }
}

// ---------------------------------------------------------------------------------------------
// Laws
// ---------------------------------------------------------------------------------------------

/// Two keys name one action: one owner, by its canonical bytes, and one index.
pub open spec fn same_action(a: GeneratingActionKeyView, b: GeneratingActionKeyView) -> bool {
    a.owner.canonical == b.owner.canonical && a.action_index == b.action_index
}

/// Two producers are one: both a source file, or one action.
pub open spec fn same_producer(a: ArtifactProducerView, b: ArtifactProducerView) -> bool {
    match (a, b) {
        (ArtifactProducerView::Source, ArtifactProducerView::Source) => true,
        (ArtifactProducerView::Derived(g), ArtifactProducerView::Derived(h)) => same_action(g, h),
        _ => false,
    }
}

/// Two references name one artifact: one path and one producer.
pub open spec fn same_artifact(a: ArtifactRefView, b: ArtifactRefView) -> bool {
    a.exec_path == b.exec_path && same_producer(a.producer, b.producer)
}

/// Two keys name one completion: one target, by its canonical bytes, and one selection.
pub open spec fn same_completion(a: TargetCompletionKeyView, b: TargetCompletionKeyView) -> bool {
    a.ct.canonical == b.ct.canonical && a.outputs == b.outputs
}

/// The answer that a producer calls for, if any: its owner.
pub open spec fn owner_of(p: ArtifactProducerView) -> Option<ConfiguredTargetKeyView> {
    match p {
        ArtifactProducerView::Source => None,
        ArtifactProducerView::Derived(g) => Some(g.owner),
    }
}

/// Decoding failed with an `Invalid` that names what was decoded.
pub open spec fn fails_typed<T>(r: Result<T, HaltView>, what: Seq<char>) -> bool {
    r matches Err(HaltView::Failed(ErrorView::Invalid { what: w, .. })) && w == what
}

/// What a reader found in a beginning of some bytes it finds in all of them, every halt is an `Invalid`,
/// and where all of the bytes would do, it is that the beginning is cut off.
spec fn is_steady<T>(
    in_prefix: (Result<T, HaltView>, int),
    in_whole: (Result<T, HaltView>, int),
    i: int,
    len: int,
    what: Seq<char>,
) -> bool {
    &&& i <= in_prefix.1 <= len
    &&& match in_prefix.0 {
        Ok(_) => in_whole == in_prefix,
        Err(h) => fails_typed(in_prefix.0, what) && (in_whole.0 is Ok ==> h == HaltView::Failed(
            codec::bad(what, "truncated"@),
        )),
    }
}

proof fn lemma_owner_round_trips(b: Seq<u8>, i: int, o: ConfiguredTargetKeyView, what: Seq<char>)
    requires
        codec::is_at(b, i, codec::bytes_frame(o.canonical)),
        b.len() <= usize::MAX,
    ensures
        owner_at(b, i, what, Some(Ok(o))) == (
            Ok::<ConfiguredTargetKeyView, HaltView>(o),
            i + codec::bytes_frame(o.canonical).len(),
        ),
        owner_at(b, i, what, None).0 == Err::<ConfiguredTargetKeyView, HaltView>(
            HaltView::NeedsOwner(o.canonical),
        ),
{
    codec::lemma_bytes_round_trip(b, i, o.canonical, what);
}

proof fn lemma_action_key_round_trips(
    b: Seq<u8>,
    i: int,
    k: GeneratingActionKeyView,
    what: Seq<char>,
)
    requires
        codec::is_at(b, i, action_key_bytes(k)),
        b.len() <= usize::MAX,
    ensures
        action_key_at(b, i, what, Some(Ok(k.owner))) == (
            Ok::<GeneratingActionKeyView, HaltView>(k),
            i + action_key_bytes(k).len(),
        ),
        action_key_at(b, i, what, None).0 == Err::<GeneratingActionKeyView, HaltView>(
            HaltView::NeedsOwner(k.owner.canonical),
        ),
{
    let frame = codec::bytes_frame(k.owner.canonical);
    codec::lemma_be_bytes_len(k.action_index as nat, 4);
    codec::lemma_at_split(b, i, frame, codec::be_bytes(k.action_index as nat, 4));
    lemma_owner_round_trips(b, i, k.owner, what);
    codec::lemma_u32_round_trips(b, i + frame.len(), k.action_index, what);
}

proof fn lemma_artifact_ref_round_trips(b: Seq<u8>, a: ArtifactRefView, answer: OwnerAnswerView)
    requires
        codec::is_at(b, 0, artifact_ref_bytes(a)),
        b.len() <= usize::MAX,
    ensures
        (owner_of(a.producer) matches Some(o) ==> answer == Some(
            Ok::<ConfiguredTargetKeyView, ErrorView>(o),
        )) ==> artifact_ref_at(b, answer) == (
            Ok::<ArtifactRefView, HaltView>(a),
            artifact_ref_bytes(a).len() as int,
        ),
        owner_of(a.producer) matches Some(o) ==> artifact_ref_at(b, None).0 == Err::<
            ArtifactRefView,
            HaltView,
        >(HaltView::NeedsOwner(o.canonical)),
{
    let what = "ARTIFACT key"@;
    let path = codec::text_frame(a.exec_path);
    let n = path.len() as int;
    let f = producer_bytes(a.producer);
    codec::lemma_at_split(b, 0, path, f);
    codec::lemma_text_round_trips(b, 0, a.exec_path, what);
    assert(b.subrange(n, n + f.len())[0] == f[0]);
    assert(b.subrange(n, n + 1)[0] == f[0]);
    match a.producer {
        ArtifactProducerView::Source => {},
        ArtifactProducerView::Derived(g) => {
            codec::lemma_at_split(b, n, seq![1u8], action_key_bytes(g));
            lemma_action_key_round_trips(b, n + 1, g, what);
        },
    }
}

proof fn lemma_target_completion_round_trips(b: Seq<u8>, k: TargetCompletionKeyView)
    requires
        codec::is_at(b, 0, target_completion_bytes(k)),
        b.len() <= usize::MAX,
    ensures
        target_completion_at(b, Some(Ok(k.ct))) == (
            Ok::<TargetCompletionKeyView, HaltView>(k),
            target_completion_bytes(k).len() as int,
        ),
        target_completion_at(b, None).0 == Err::<TargetCompletionKeyView, HaltView>(
            HaltView::NeedsOwner(k.ct.canonical),
        ),
{
    let what = "TARGET_COMPLETION key"@;
    let frame = codec::bytes_frame(k.ct.canonical);
    let n = frame.len() as int;
    codec::lemma_at_split(b, 0, frame, selection_bytes(k.outputs));
    lemma_owner_round_trips(b, 0, k.ct, what);
    assert(b.subrange(n, n + 1)[0] == selection_bytes(k.outputs)[0]);
}

proof fn lemma_owner_steady(
    b: Seq<u8>,
    c: Seq<u8>,
    i: int,
    o: ConfiguredTargetKeyView,
    what: Seq<char>,
)
    requires
        0 <= i <= b.len(),
        codec::is_prefix(b, c),
    ensures
        is_steady(
            owner_at(b, i, what, Some(Ok(o))),
            owner_at(c, i, what, Some(Ok(o))),
            i,
            b.len() as int,
            what,
        ),
{
    codec::lemma_bytes_stable(b, c, i, what);
}

proof fn lemma_action_key_steady(
    b: Seq<u8>,
    c: Seq<u8>,
    i: int,
    o: ConfiguredTargetKeyView,
    what: Seq<char>,
)
    requires
        0 <= i <= b.len(),
        codec::is_prefix(b, c),
    ensures
        is_steady(
            action_key_at(b, i, what, Some(Ok(o))),
            action_key_at(c, i, what, Some(Ok(o))),
            i,
            b.len() as int,
            what,
        ),
{
    lemma_owner_steady(b, c, i, o, what);
    if let (Ok(_), j) = owner_at(b, i, what, Some(Ok(o))) {
        codec::lemma_take_stable(b, c, j, 4, what);
    }
}

proof fn lemma_artifact_ref_steady(b: Seq<u8>, c: Seq<u8>, o: ConfiguredTargetKeyView)
    requires
        codec::is_prefix(b, c),
    ensures
        is_steady(
            artifact_ref_at(b, Some(Ok(o))),
            artifact_ref_at(c, Some(Ok(o))),
            0,
            b.len() as int,
            "ARTIFACT key"@,
        ),
{
    let what = "ARTIFACT key"@;
    codec::lemma_text_stable(b, c, 0, what);
    if let (Ok(_), j) = codec::text_at(b, 0, what) {
        codec::lemma_take_stable(b, c, j, 1, what);
        if let (Ok(_), k) = codec::take_at(b, j, 1, what) {
            lemma_action_key_steady(b, c, k, o, what);
        }
    }
}

proof fn lemma_target_completion_steady(b: Seq<u8>, c: Seq<u8>, o: ConfiguredTargetKeyView)
    requires
        codec::is_prefix(b, c),
    ensures
        is_steady(
            target_completion_at(b, Some(Ok(o))),
            target_completion_at(c, Some(Ok(o))),
            0,
            b.len() as int,
            "TARGET_COMPLETION key"@,
        ),
{
    let what = "TARGET_COMPLETION key"@;
    lemma_owner_steady(b, c, 0, o, what);
    if let (Ok(_), j) = owner_at(b, 0, what, Some(Ok(o))) {
        codec::lemma_take_stable(b, c, j, 1, what);
    }
}

/// An action key is lossless: its decoder asks for the owner that was encoded, and with that owner
/// gives the key back.
pub proof fn law_action_key_round_trips(k: GeneratingActionKeyView)
    requires
        action_key_bytes(k).len() <= usize::MAX,
    ensures
        decoded_action_key(action_key_bytes(k), None) == Err::<GeneratingActionKeyView, HaltView>(
            HaltView::NeedsOwner(k.owner.canonical),
        ),
        decoded_action_key(action_key_bytes(k), Some(Ok(k.owner))) == Ok::<
            GeneratingActionKeyView,
            HaltView,
        >(k),
{
    codec::lemma_whole_is_at(action_key_bytes(k));
    lemma_action_key_round_trips(action_key_bytes(k), 0, k, "ACTION key"@);
}

/// An artifact key is lossless: the decoder gives a source artifact back without an answer; for a
/// derived one it asks for the owner that was encoded, and with that owner gives the key back.
pub proof fn law_artifact_ref_round_trips(a: ArtifactRefView)
    requires
        artifact_ref_bytes(a).len() <= usize::MAX,
    ensures
        match owner_of(a.producer) {
            None => forall|answer: OwnerAnswerView| #[trigger]
                decoded_artifact_ref(artifact_ref_bytes(a), answer) == Ok::<
                    ArtifactRefView,
                    HaltView,
                >(a),
            Some(o) => {
                &&& decoded_artifact_ref(artifact_ref_bytes(a), None) == Err::<
                    ArtifactRefView,
                    HaltView,
                >(HaltView::NeedsOwner(o.canonical))
                &&& decoded_artifact_ref(artifact_ref_bytes(a), Some(Ok(o))) == Ok::<
                    ArtifactRefView,
                    HaltView,
                >(a)
            },
        },
{
    let b = artifact_ref_bytes(a);
    codec::lemma_whole_is_at(b);
    match owner_of(a.producer) {
        None => {
            assert forall|answer: OwnerAnswerView| #[trigger]
                decoded_artifact_ref(b, answer) == Ok::<ArtifactRefView, HaltView>(a) by {
                lemma_artifact_ref_round_trips(b, a, answer);
            }
        },
        Some(o) => {
            lemma_artifact_ref_round_trips(b, a, Some(Ok(o)));
        },
    }
}

/// A completion key is lossless: its decoder asks for the target that was encoded, and with that
/// target gives the key back.
pub proof fn law_target_completion_round_trips(k: TargetCompletionKeyView)
    requires
        target_completion_bytes(k).len() <= usize::MAX,
    ensures
        decoded_target_completion(target_completion_bytes(k), None) == Err::<
            TargetCompletionKeyView,
            HaltView,
        >(HaltView::NeedsOwner(k.ct.canonical)),
        decoded_target_completion(target_completion_bytes(k), Some(Ok(k.ct))) == Ok::<
            TargetCompletionKeyView,
            HaltView,
        >(k),
{
    codec::lemma_whole_is_at(target_completion_bytes(k));
    lemma_target_completion_round_trips(target_completion_bytes(k), k);
}

proof fn lemma_action_key_identifies(a: GeneratingActionKeyView, b: GeneratingActionKeyView)
    requires
        action_key_bytes(a).len() <= usize::MAX,
        action_key_bytes(a) == action_key_bytes(b),
    ensures
        same_action(a, b),
{
    let w = "ACTION key"@;
    let bytes = action_key_bytes(a);
    codec::lemma_whole_is_at(bytes);
    lemma_action_key_round_trips(bytes, 0, a, w);
    lemma_action_key_round_trips(bytes, 0, b, w);
    codec::lemma_be_bytes_len(a.action_index as nat, 4);
}

/// A key stands for one thing only: two action keys, two artifact keys or two completion keys have the
/// same bytes if and only if they name the same action, artifact or completion.
pub proof fn law_key_bytes_identify(
    g: GeneratingActionKeyView,
    h: GeneratingActionKeyView,
    a: ArtifactRefView,
    b: ArtifactRefView,
    k: TargetCompletionKeyView,
    l: TargetCompletionKeyView,
)
    requires
        action_key_bytes(g).len() <= usize::MAX,
        artifact_ref_bytes(a).len() <= usize::MAX,
        target_completion_bytes(k).len() <= usize::MAX,
    ensures
        action_key_bytes(g) == action_key_bytes(h) <==> same_action(g, h),
        artifact_ref_bytes(a) == artifact_ref_bytes(b) <==> same_artifact(a, b),
        target_completion_bytes(k) == target_completion_bytes(l) <==> same_completion(k, l),
{
    if action_key_bytes(g) == action_key_bytes(h) {
        lemma_action_key_identifies(g, h);
    }
    if artifact_ref_bytes(a) == artifact_ref_bytes(b) {
        lemma_artifact_ref_identifies(a, b);
    }
    if target_completion_bytes(k) == target_completion_bytes(l) {
        law_target_completion_round_trips(k);
        law_target_completion_round_trips(l);
    }
}

proof fn lemma_artifact_ref_identifies(a: ArtifactRefView, b: ArtifactRefView)
    requires
        artifact_ref_bytes(a).len() <= usize::MAX,
        artifact_ref_bytes(a) == artifact_ref_bytes(b),
    ensures
        same_artifact(a, b),
{
    let w = "ARTIFACT key"@;
    let bytes = artifact_ref_bytes(a);
    let pa = codec::text_frame(a.exec_path);
    let pb = codec::text_frame(b.exec_path);
    codec::lemma_whole_is_at(bytes);
    codec::lemma_at_split(bytes, 0, pa, producer_bytes(a.producer));
    codec::lemma_at_split(bytes, 0, pb, producer_bytes(b.producer));
    codec::lemma_text_round_trips(bytes, 0, a.exec_path, w);
    codec::lemma_text_round_trips(bytes, 0, b.exec_path, w);
    assert(a.exec_path == b.exec_path);
    let n = pa.len() as int;
    let fa = producer_bytes(a.producer);
    let fb = producer_bytes(b.producer);
    assert(fa.len() == fb.len());
    assert(fa == fb);
    assert(fa[0] == fb[0]);
    match (a.producer, b.producer) {
        (ArtifactProducerView::Derived(g), ArtifactProducerView::Derived(h)) => {
            assert(fa.skip(1) =~= action_key_bytes(g));
            assert(fb.skip(1) =~= action_key_bytes(h));
            lemma_action_key_identifies(g, h);
        },
        _ => {},
    }
}

/// A key that was cut off anywhere does not decode, whatever owner is answered; and one that other
/// bytes follow does not decode either.
pub proof fn law_keys_are_all_or_nothing(
    g: GeneratingActionKeyView,
    a: ArtifactRefView,
    k: TargetCompletionKeyView,
    cut: int,
    more: Seq<u8>,
    owner: ConfiguredTargetKeyView,
)
    requires
        0 <= cut,
        0 < more.len(),
        action_key_bytes(g).len() + more.len() <= usize::MAX,
        artifact_ref_bytes(a).len() + more.len() <= usize::MAX,
        target_completion_bytes(k).len() + more.len() <= usize::MAX,
    ensures
        cut < action_key_bytes(g).len() ==> fails_typed(
            decoded_action_key(action_key_bytes(g).take(cut), Some(Ok(owner))),
            "ACTION key"@,
        ),
        cut < artifact_ref_bytes(a).len() ==> fails_typed(
            decoded_artifact_ref(artifact_ref_bytes(a).take(cut), Some(Ok(owner))),
            "ARTIFACT key"@,
        ),
        cut < target_completion_bytes(k).len() ==> fails_typed(
            decoded_target_completion(target_completion_bytes(k).take(cut), Some(Ok(owner))),
            "TARGET_COMPLETION key"@,
        ),
        fails_typed(
            decoded_action_key(action_key_bytes(g) + more, Some(Ok(owner))),
            "ACTION key"@,
        ),
        fails_typed(
            decoded_artifact_ref(artifact_ref_bytes(a) + more, Some(Ok(owner))),
            "ARTIFACT key"@,
        ),
        fails_typed(
            decoded_target_completion(target_completion_bytes(k) + more, Some(Ok(owner))),
            "TARGET_COMPLETION key"@,
        ),
{
    lemma_action_key_all_or_nothing(g, cut, more, owner);
    lemma_artifact_ref_all_or_nothing(a, cut, more, owner);
    lemma_target_completion_all_or_nothing(k, cut, more, owner);
}

proof fn lemma_action_key_all_or_nothing(
    g: GeneratingActionKeyView,
    cut: int,
    more: Seq<u8>,
    owner: ConfiguredTargetKeyView,
)
    requires
        0 <= cut,
        0 < more.len(),
        action_key_bytes(g).len() + more.len() <= usize::MAX,
    ensures
        cut < action_key_bytes(g).len() ==> fails_typed(
            decoded_action_key(action_key_bytes(g).take(cut), Some(Ok(owner))),
            "ACTION key"@,
        ),
        fails_typed(
            decoded_action_key(action_key_bytes(g) + more, Some(Ok(owner))),
            "ACTION key"@,
        ),
{
    let w = "ACTION key"@;
    let whole = action_key_bytes(g);
    let frame = codec::bytes_frame(g.owner.canonical);
    let longer = whole + more;
    codec::lemma_be_bytes_len(g.action_index as nat, 4);
    codec::lemma_whole_is_at(whole);
    codec::lemma_at_split(whole, 0, frame, codec::be_bytes(g.action_index as nat, 4));
    codec::lemma_bytes_round_trip(whole, 0, g.owner.canonical, w);
    assert(longer.subrange(0, whole.len() as int) =~= whole);
    codec::lemma_at_split(longer, 0, frame, codec::be_bytes(g.action_index as nat, 4));
    codec::lemma_bytes_round_trip(longer, 0, g.owner.canonical, w);
    if cut < whole.len() {
        let part = whole.take(cut);
        assert(whole.take(part.len() as int) =~= part);
        lemma_action_key_steady(part, whole, 0, owner, w);
    }
}

proof fn lemma_artifact_ref_all_or_nothing(
    a: ArtifactRefView,
    cut: int,
    more: Seq<u8>,
    owner: ConfiguredTargetKeyView,
)
    requires
        0 <= cut,
        0 < more.len(),
        artifact_ref_bytes(a).len() + more.len() <= usize::MAX,
    ensures
        cut < artifact_ref_bytes(a).len() ==> fails_typed(
            decoded_artifact_ref(artifact_ref_bytes(a).take(cut), Some(Ok(owner))),
            "ARTIFACT key"@,
        ),
        fails_typed(
            decoded_artifact_ref(artifact_ref_bytes(a) + more, Some(Ok(owner))),
            "ARTIFACT key"@,
        ),
{
    let whole = artifact_ref_bytes(a);
    let longer = whole + more;
    codec::lemma_whole_is_at(whole);
    lemma_artifact_ref_ends(whole, a, owner);
    assert(longer.subrange(0, whole.len() as int) =~= whole);
    lemma_artifact_ref_ends(longer, a, owner);
    if cut < whole.len() {
        let part = whole.take(cut);
        assert(whole.take(part.len() as int) =~= part);
        lemma_artifact_ref_steady(part, whole, owner);
    }
    assert(longer.take(longer.len() as int) =~= longer);
    lemma_artifact_ref_steady(longer, longer, owner);
}

/// Where an artifact key stands at the start, decoding ends right behind it or fails.
proof fn lemma_artifact_ref_ends(b: Seq<u8>, a: ArtifactRefView, owner: ConfiguredTargetKeyView)
    requires
        codec::is_at(b, 0, artifact_ref_bytes(a)),
        b.len() <= usize::MAX,
    ensures
        artifact_ref_at(b, Some(Ok(owner))).0 is Ok ==> artifact_ref_at(b, Some(Ok(owner))).1
            == artifact_ref_bytes(a).len(),
{
    let what = "ARTIFACT key"@;
    let path = codec::text_frame(a.exec_path);
    let n = path.len() as int;
    let f = producer_bytes(a.producer);
    codec::lemma_at_split(b, 0, path, f);
    codec::lemma_text_round_trips(b, 0, a.exec_path, what);
    assert(b.subrange(n, n + f.len())[0] == f[0]);
    assert(b.subrange(n, n + 1)[0] == f[0]);
    match a.producer {
        ArtifactProducerView::Source => {},
        ArtifactProducerView::Derived(g) => {
            let frame = codec::bytes_frame(g.owner.canonical);
            let index = codec::be_bytes(g.action_index as nat, 4);
            codec::lemma_be_bytes_len(g.action_index as nat, 4);
            codec::lemma_at_split(b, n, seq![1u8], action_key_bytes(g));
            codec::lemma_at_split(b, n + 1, frame, index);
            codec::lemma_bytes_round_trip(b, n + 1, g.owner.canonical, what);
        },
    }
}

proof fn lemma_target_completion_all_or_nothing(
    k: TargetCompletionKeyView,
    cut: int,
    more: Seq<u8>,
    owner: ConfiguredTargetKeyView,
)
    requires
        0 <= cut,
        0 < more.len(),
        target_completion_bytes(k).len() + more.len() <= usize::MAX,
    ensures
        cut < target_completion_bytes(k).len() ==> fails_typed(
            decoded_target_completion(target_completion_bytes(k).take(cut), Some(Ok(owner))),
            "TARGET_COMPLETION key"@,
        ),
        fails_typed(
            decoded_target_completion(target_completion_bytes(k) + more, Some(Ok(owner))),
            "TARGET_COMPLETION key"@,
        ),
{
    let w = "TARGET_COMPLETION key"@;
    let whole = target_completion_bytes(k);
    let frame = codec::bytes_frame(k.ct.canonical);
    let longer = whole + more;
    codec::lemma_whole_is_at(whole);
    codec::lemma_at_split(whole, 0, frame, selection_bytes(k.outputs));
    codec::lemma_bytes_round_trip(whole, 0, k.ct.canonical, w);
    assert(longer.subrange(0, whole.len() as int) =~= whole);
    codec::lemma_at_split(longer, 0, frame, selection_bytes(k.outputs));
    codec::lemma_bytes_round_trip(longer, 0, k.ct.canonical, w);
    if cut < whole.len() {
        let part = whole.take(cut);
        assert(whole.take(part.len() as int) =~= part);
        lemma_target_completion_steady(part, whole, owner);
    }
}

/// Every failure of a decoder is either the one that was answered for the owner, or an `Invalid` that
/// names what was decoded.
#[verifier::spinoff_prover]
#[verifier::rlimit(40)]
pub proof fn law_key_failures_are_typed(b: Seq<u8>, answer: OwnerAnswerView)
    ensures
        decoded_action_key(b, answer) matches Err(HaltView::Failed(e)) ==> (e matches ErrorView::Invalid {
            what,
            ..
        } && what == "ACTION key"@) || answer == Some(Err::<ConfiguredTargetKeyView, ErrorView>(e)),
        decoded_artifact_ref(b, answer) matches Err(HaltView::Failed(e)) ==> (e matches ErrorView::Invalid {
            what,
            ..
        } && what == "ARTIFACT key"@) || answer == Some(Err::<ConfiguredTargetKeyView, ErrorView>(e)),
        decoded_target_completion(b, answer) matches Err(HaltView::Failed(e)) ==> (e matches ErrorView::Invalid {
            what,
            ..
        } && what == "TARGET_COMPLETION key"@) || answer == Some(Err::<ConfiguredTargetKeyView, ErrorView>(e)),
{
}

/// An owner is accepted by its one encoding only: where the answer is a target with other canonical
/// bytes than those in the frame, the key is refused.
pub proof fn law_foreign_owner_is_refused(
    g: GeneratingActionKeyView,
    a: ArtifactRefView,
    k: TargetCompletionKeyView,
    owner: ConfiguredTargetKeyView,
)
    requires
        action_key_bytes(g).len() <= usize::MAX,
        artifact_ref_bytes(a).len() <= usize::MAX,
        target_completion_bytes(k).len() <= usize::MAX,
    ensures
        owner.canonical != g.owner.canonical ==> decoded_action_key(
            action_key_bytes(g),
            Some(Ok(owner)),
        ) == Err::<GeneratingActionKeyView, HaltView>(
            HaltView::Failed(codec::bad("ACTION key"@, "non-canonical owner CT-key frame"@)),
        ),
        owner_of(a.producer) matches Some(o) ==> (owner.canonical != o.canonical
            ==> decoded_artifact_ref(artifact_ref_bytes(a), Some(Ok(owner))) == Err::<
            ArtifactRefView,
            HaltView,
        >(HaltView::Failed(codec::bad("ARTIFACT key"@, "non-canonical owner CT-key frame"@)))),
        owner.canonical != k.ct.canonical ==> decoded_target_completion(
            target_completion_bytes(k),
            Some(Ok(owner)),
        ) == Err::<TargetCompletionKeyView, HaltView>(
            HaltView::Failed(
                codec::bad("TARGET_COMPLETION key"@, "non-canonical owner CT-key frame"@),
            ),
        ),
{
    law_action_key_round_trips(g);
    law_artifact_ref_round_trips(a);
    law_target_completion_round_trips(k);
}

proof fn lemma_action_key_is_canonical(
    b: Seq<u8>,
    i: int,
    what: Seq<char>,
    answer: OwnerAnswerView,
)
    requires
        0 <= i,
        usize::MAX == u64::MAX,
    ensures
        action_key_at(b, i, what, answer) matches (Ok(k), j) ==> {
            &&& codec::is_at(b, i, action_key_bytes(k))
            &&& j == i + action_key_bytes(k).len()
        },
{
    codec::lemma_bytes_are_framed(b, i, what);
    if let (Ok(o), j) = owner_at(b, i, what, answer) {
        codec::lemma_u32_is_noted(b, j, what);
        if let (Ok(n), _) = codec::u32_at(b, j, what) {
            codec::lemma_be_bytes_len(n as nat, 4);
            codec::lemma_at_join(
                b,
                i,
                codec::bytes_frame(o.canonical),
                codec::be_bytes(n as nat, 4),
            );
        }
    }
}

/// A key has one encoding: on a machine whose numbers hold every length of eight bytes, the bytes that
/// decode to a key are the bytes that the key encodes to.
#[verifier::spinoff_prover]
#[verifier::rlimit(40)]
pub proof fn law_keys_have_one_encoding(b: Seq<u8>, answer: OwnerAnswerView)
    requires
        usize::MAX == u64::MAX,
    ensures
        decoded_action_key(b, answer) matches Ok(k) ==> b == action_key_bytes(k),
        decoded_artifact_ref(b, answer) matches Ok(a) ==> b == artifact_ref_bytes(a),
        decoded_target_completion(b, answer) matches Ok(k) ==> b == target_completion_bytes(k),
{
    assert(b.subrange(0, b.len() as int) =~= b);
    lemma_action_key_is_canonical(b, 0, "ACTION key"@, answer);
    let w = "ARTIFACT key"@;
    codec::lemma_text_is_framed(b, 0, w);
    if let (Ok(path), j) = codec::text_at(b, 0, w) {
        if let (Ok(tag), k) = codec::take_at(b, j, 1, w) {
            lemma_action_key_is_canonical(b, k, w, answer);
            assert(tag =~= seq![tag[0]]);
            if let (Ok(p), _) = producer_at(b, j, w, answer) {
                if let ArtifactProducerView::Derived(g) = p {
                    codec::lemma_at_join(b, j, tag, action_key_bytes(g));
                }
                codec::lemma_at_join(b, 0, codec::text_frame(path), producer_bytes(p));
            }
        }
    }
    let w = "TARGET_COMPLETION key"@;
    codec::lemma_bytes_are_framed(b, 0, w);
    if let (Ok(o), j) = owner_at(b, 0, w, answer) {
        if let (Ok(tag), _) = codec::take_at(b, j, 1, w) {
            assert(tag =~= seq![tag[0]]);
            codec::lemma_at_join(b, 0, codec::bytes_frame(o.canonical), tag);
        }
    }
}

/// A content fingerprint is never read as an action key: whatever is answered for the owner, its bytes
/// are refused.
pub proof fn law_fingerprint_is_no_action_key(
    f: ActionKeyView,
    answer: Result<ConfiguredTargetKeyView, ErrorView>,
)
    requires
        fingerprint::fingerprint(f).len() <= usize::MAX,
    ensures
        match answer {
            Ok(_) => fails_typed(
                decoded_action_key(fingerprint::fingerprint(f), Some(answer)),
                "ACTION key"@,
            ),
            Err(e) => decoded_action_key(fingerprint::fingerprint(f), Some(answer)) == Err::<
                GeneratingActionKeyView,
                HaltView,
            >(HaltView::Failed(e)),
        },
{
    let w = "ACTION key"@;
    let b = fingerprint::fingerprint(f);
    let name = codec::text_frame(f.mnemonic);
    let rest = b.skip(name.len() as int);
    assert(b =~= name + rest);
    codec::lemma_be_bytes_len(f.argv.len(), 8);
    codec::lemma_be_bytes_len(f.env.len(), 8);
    codec::lemma_whole_is_at(b);
    codec::lemma_at_split(b, 0, name, rest);
    codec::lemma_bytes_round_trip(b, 0, vstd::utf8::encode_utf8(f.mnemonic), w);
}

/// The producer tag that is reserved for tree children is refused by name, and so is every other tag
/// that stands for no producer, whatever follows it and whatever is answered.
pub proof fn law_unknown_producers_are_refused(
    path: Seq<char>,
    tag: u8,
    rest: Seq<u8>,
    answer: OwnerAnswerView,
)
    requires
        tag >= 2,
        (codec::text_frame(path) + seq![tag] + rest).len() <= usize::MAX,
    ensures
        decoded_artifact_ref(codec::text_frame(path) + seq![tag] + rest, answer) == Err::<
            ArtifactRefView,
            HaltView,
        >(
            HaltView::Failed(
                codec::bad(
                    "ARTIFACT key"@,
                    if tag == 2 {
                        "reserved TreeChild producer tag (R6): tree artifacts are deferred"@
                    } else {
                        "bad producer tag "@ + text::decimal(tag as nat)
                    },
                ),
            ),
        ),
{
    let frame = codec::text_frame(path);
    let b = frame + seq![tag] + rest;
    let n = frame.len() as int;
    assert(b =~= frame + (seq![tag] + rest));
    codec::lemma_whole_is_at(b);
    codec::lemma_at_split(b, 0, frame, seq![tag] + rest);
    codec::lemma_text_round_trips(b, 0, path, "ARTIFACT key"@);
    assert(b.subrange(n, n + 1)[0] == tag);
}

/// Every selection tag but the one that is known is refused, whatever follows it.
pub proof fn law_unknown_selections_are_refused(
    ct: ConfiguredTargetKeyView,
    tag: u8,
    rest: Seq<u8>,
)
    requires
        tag != 0,
        (codec::bytes_frame(ct.canonical) + seq![tag] + rest).len() <= usize::MAX,
    ensures
        decoded_target_completion(
            codec::bytes_frame(ct.canonical) + seq![tag] + rest,
            Some(Ok(ct)),
        ) == Err::<TargetCompletionKeyView, HaltView>(
            HaltView::Failed(
                codec::bad(
                    "TARGET_COMPLETION key"@,
                    "bad output-selection tag "@ + text::decimal(tag as nat),
                ),
            ),
        ),
{
    let frame = codec::bytes_frame(ct.canonical);
    let b = frame + seq![tag] + rest;
    let n = frame.len() as int;
    assert(b =~= frame + (seq![tag] + rest));
    codec::lemma_whole_is_at(b);
    codec::lemma_at_split(b, 0, frame, seq![tag] + rest);
    lemma_owner_round_trips(b, 0, ct, "TARGET_COMPLETION key"@);
    assert(b.subrange(n, n + 1)[0] == tag);
}

// ---------------------------------------------------------------------------------------------
// Laws of the fields and of the layout
// ---------------------------------------------------------------------------------------------

/// Keys are seen as what their fields hold.
pub proof fn law_keys_are_their_fields(
    g: GeneratingActionKey,
    p: ArtifactProducer,
    a: ArtifactRef,
    k: TargetCompletionKey,
)
    ensures
        g@.owner == g.owner@ && g@.action_index == g.action_index,
        match p {
            ArtifactProducer::Source => p@ is Source,
            ArtifactProducer::Derived(d) => p@ == ArtifactProducerView::Derived(d@),
        },
        a@.exec_path == a.exec_path@ && a@.producer == a.producer@,
        k@.ct == k.ct@ && k@.outputs == k.outputs,
{
}

/// Halts and answers are seen as what they hold.
pub proof fn law_halts_are_their_contents(h: Halt, k: ConfiguredTargetKey, e: Error)
    ensures
        match h {
            Halt::Failed(f) => h@ == HaltView::Failed(f@),
            Halt::NeedsOwner(frame) => h@ == HaltView::NeedsOwner(frame@),
        },
        answer_view(None) is None,
        answer_view(Some(Ok(k))) == Some(Ok::<ConfiguredTargetKeyView, ErrorView>(k@)),
        answer_view(Some(Err(e))) == Some(Err::<ConfiguredTargetKeyView, ErrorView>(e@)),
{
}

/// The bytes of a key are its parts in their order: the frame of the canonical bytes of the target and
/// four bytes of the index; the frame of the path, and 0 for a source or 1 and the key of the action; the
/// frame of the canonical bytes of the target and 0.
#[verifier::spinoff_prover]
#[verifier::rlimit(40)]
pub proof fn law_key_bytes_are_their_parts(
    owner: ConfiguredTargetKeyView,
    action_index: u32,
    path: Seq<char>,
)
    ensures
        action_key_bytes(GeneratingActionKeyView { owner, action_index }) == codec::bytes_frame(
            owner.canonical,
        ) + codec::be_bytes(action_index as nat, 4),
        artifact_ref_bytes(
            ArtifactRefView { exec_path: path, producer: ArtifactProducerView::Source },
        ) == codec::text_frame(path) + seq![0u8],
        artifact_ref_bytes(
            ArtifactRefView {
                exec_path: path,
                producer: ArtifactProducerView::Derived(
                    GeneratingActionKeyView { owner, action_index },
                ),
            },
        ) == codec::text_frame(path) + seq![1u8] + codec::bytes_frame(owner.canonical)
            + codec::be_bytes(action_index as nat, 4),
        target_completion_bytes(
            TargetCompletionKeyView { ct: owner, outputs: OutputSelection::Default },
        ) == codec::bytes_frame(owner.canonical) + seq![0u8],
{
    assert(artifact_ref_bytes(
        ArtifactRefView {
            exec_path: path,
            producer: ArtifactProducerView::Derived(
                GeneratingActionKeyView { owner, action_index },
            ),
        },
    ) =~= codec::text_frame(path) + seq![1u8] + codec::bytes_frame(owner.canonical)
        + codec::be_bytes(action_index as nat, 4));
}

#[verifier::spinoff_prover]
#[verifier::rlimit(40)]
proof fn lemma_cut_and_extended_action_key(g: GeneratingActionKeyView, cut: int, more: Seq<u8>)
    requires
        0 <= cut,
        0 < more.len(),
        action_key_bytes(g).len() + more.len() <= usize::MAX,
    ensures
        cut < action_key_bytes(g).len() ==> decoded_action_key(
            action_key_bytes(g).take(cut),
            Some(Ok(g.owner)),
        ) == Err::<GeneratingActionKeyView, HaltView>(
            HaltView::Failed(
                ErrorView::Invalid { what: "ACTION key"@, detail: "truncated"@ },
            ),
        ),
        decoded_action_key(action_key_bytes(g) + more, Some(Ok(g.owner))) == Err::<
            GeneratingActionKeyView,
            HaltView,
        >(
            HaltView::Failed(
                ErrorView::Invalid { what: "ACTION key"@, detail: "trailing bytes"@ },
            ),
        ),
{
    let whole = action_key_bytes(g);
    assert((whole + more).subrange(0, whole.len() as int) =~= whole);
    lemma_action_key_round_trips(whole + more, 0, g, "ACTION key"@);
    if cut < whole.len() {
        let part = whole.take(cut);
        codec::lemma_whole_is_at(whole);
        lemma_action_key_round_trips(whole, 0, g, "ACTION key"@);
        assert(whole.take(part.len() as int) =~= part);
        lemma_action_key_steady(part, whole, 0, g.owner, "ACTION key"@);
    }
}

#[verifier::spinoff_prover]
#[verifier::rlimit(40)]
proof fn lemma_cut_and_extended_completion_key(k: TargetCompletionKeyView, cut: int, more: Seq<u8>)
    requires
        0 <= cut,
        0 < more.len(),
        target_completion_bytes(k).len() + more.len() <= usize::MAX,
    ensures
        cut < target_completion_bytes(k).len() ==> decoded_target_completion(
            target_completion_bytes(k).take(cut),
            Some(Ok(k.ct)),
        ) == Err::<TargetCompletionKeyView, HaltView>(
            HaltView::Failed(
                ErrorView::Invalid { what: "TARGET_COMPLETION key"@, detail: "truncated"@ },
            ),
        ),
        decoded_target_completion(target_completion_bytes(k) + more, Some(Ok(k.ct))) == Err::<
            TargetCompletionKeyView,
            HaltView,
        >(
            HaltView::Failed(
                ErrorView::Invalid { what: "TARGET_COMPLETION key"@, detail: "trailing bytes"@ },
            ),
        ),
{
    let whole = target_completion_bytes(k);
    assert((whole + more).subrange(0, whole.len() as int) =~= whole);
    lemma_target_completion_round_trips(whole + more, k);
    if cut < whole.len() {
        let part = whole.take(cut);
        codec::lemma_whole_is_at(whole);
        lemma_target_completion_round_trips(whole, k);
        assert(whole.take(part.len() as int) =~= part);
        lemma_target_completion_steady(part, whole, k.ct);
    }
}

/// A key that was cut off anywhere is truncated, and one that other bytes follow has trailing bytes.
pub proof fn law_cut_and_extended_keys_are_named(
    g: GeneratingActionKeyView,
    k: TargetCompletionKeyView,
    cut: int,
    more: Seq<u8>,
)
    requires
        0 <= cut,
        0 < more.len(),
        action_key_bytes(g).len() + more.len() <= usize::MAX,
        target_completion_bytes(k).len() + more.len() <= usize::MAX,
    ensures
        cut < action_key_bytes(g).len() ==> decoded_action_key(
            action_key_bytes(g).take(cut),
            Some(Ok(g.owner)),
        ) == Err::<GeneratingActionKeyView, HaltView>(
            HaltView::Failed(
                ErrorView::Invalid { what: "ACTION key"@, detail: "truncated"@ },
            ),
        ),
        cut < target_completion_bytes(k).len() ==> decoded_target_completion(
            target_completion_bytes(k).take(cut),
            Some(Ok(k.ct)),
        ) == Err::<TargetCompletionKeyView, HaltView>(
            HaltView::Failed(
                ErrorView::Invalid { what: "TARGET_COMPLETION key"@, detail: "truncated"@ },
            ),
        ),
        decoded_action_key(action_key_bytes(g) + more, Some(Ok(g.owner))) == Err::<
            GeneratingActionKeyView,
            HaltView,
        >(
            HaltView::Failed(
                ErrorView::Invalid { what: "ACTION key"@, detail: "trailing bytes"@ },
            ),
        ),
        decoded_target_completion(target_completion_bytes(k) + more, Some(Ok(k.ct))) == Err::<
            TargetCompletionKeyView,
            HaltView,
        >(
            HaltView::Failed(
                ErrorView::Invalid { what: "TARGET_COMPLETION key"@, detail: "trailing bytes"@ },
            ),
        ),
{
    lemma_cut_and_extended_action_key(g, cut, more);
    lemma_cut_and_extended_completion_key(k, cut, more);
}

/// An artifact key that was cut off anywhere is truncated, and one that other bytes follow has trailing
/// bytes. A source artifact has no owner: there any answer will do.
#[verifier::spinoff_prover]
#[verifier::rlimit(40)]
pub proof fn law_cut_and_extended_artifact_keys_are_named(
    a: ArtifactRefView,
    owner: ConfiguredTargetKeyView,
    cut: int,
    more: Seq<u8>,
)
    requires
        0 <= cut,
        0 < more.len(),
        artifact_ref_bytes(a).len() + more.len() <= usize::MAX,
        a.producer matches ArtifactProducerView::Derived(g) ==> owner == g.owner,
    ensures
        cut < artifact_ref_bytes(a).len() ==> decoded_artifact_ref(
            artifact_ref_bytes(a).take(cut),
            Some(Ok(owner)),
        ) == Err::<ArtifactRefView, HaltView>(
            HaltView::Failed(
                ErrorView::Invalid { what: "ARTIFACT key"@, detail: "truncated"@ },
            ),
        ),
        decoded_artifact_ref(artifact_ref_bytes(a) + more, Some(Ok(owner))) == Err::<
            ArtifactRefView,
            HaltView,
        >(
            HaltView::Failed(
                ErrorView::Invalid { what: "ARTIFACT key"@, detail: "trailing bytes"@ },
            ),
        ),
{
    let whole = artifact_ref_bytes(a);
    codec::lemma_whole_is_at(whole);
    lemma_artifact_ref_round_trips(whole, a, Some(Ok(owner)));
    assert((whole + more).subrange(0, whole.len() as int) =~= whole);
    lemma_artifact_ref_round_trips(whole + more, a, Some(Ok(owner)));
    if cut < whole.len() {
        let part = whole.take(cut);
        assert(whole.take(part.len() as int) =~= part);
        lemma_artifact_ref_steady(part, whole, owner);
    }
}

/// An owner that the analysis refuses ends the decoding with that very failure.
#[verifier::spinoff_prover]
#[verifier::rlimit(40)]
pub proof fn law_refused_owner_ends_decoding(
    g: GeneratingActionKeyView,
    path: Seq<char>,
    k: TargetCompletionKeyView,
    e: ErrorView,
)
    requires
        action_key_bytes(g).len() <= usize::MAX,
        artifact_ref_bytes(
            ArtifactRefView { exec_path: path, producer: ArtifactProducerView::Derived(g) },
        ).len() <= usize::MAX,
        target_completion_bytes(k).len() <= usize::MAX,
    ensures
        decoded_action_key(action_key_bytes(g), Some(Err(e))) == Err::<
            GeneratingActionKeyView,
            HaltView,
        >(HaltView::Failed(e)),
        decoded_artifact_ref(
            artifact_ref_bytes(
                ArtifactRefView { exec_path: path, producer: ArtifactProducerView::Derived(g) },
            ),
            Some(Err(e)),
        ) == Err::<ArtifactRefView, HaltView>(HaltView::Failed(e)),
        decoded_target_completion(target_completion_bytes(k), Some(Err(e))) == Err::<
            TargetCompletionKeyView,
            HaltView,
        >(HaltView::Failed(e)),
{
    law_action_key_round_trips(g);
    law_artifact_ref_round_trips(
        ArtifactRefView { exec_path: path, producer: ArtifactProducerView::Derived(g) },
    );
    law_target_completion_round_trips(k);
}

/// A length that promises more bytes than there are is refused before anything is asked: one that no
/// position can hold is an overflow, any other one is truncated.
#[verifier::spinoff_prover]
#[verifier::rlimit(40)]
pub proof fn law_lengths_are_checked(n: u64, rest: Seq<u8>, answer: OwnerAnswerView)
    requires
        usize::MAX == u64::MAX,
        rest.len() < n,
        8 + rest.len() <= usize::MAX,
    ensures
        ({
            let b = codec::be_bytes(n as nat, 8) + rest;
            let detail = if n > u64::MAX - 8 {
                "length overflow"@
            } else {
                "truncated"@
            };
            &&& decoded_action_key(b, answer) == Err::<GeneratingActionKeyView, HaltView>(
                HaltView::Failed(ErrorView::Invalid { what: "ACTION key"@, detail }),
            )
            &&& decoded_artifact_ref(b, answer) == Err::<ArtifactRefView, HaltView>(
                HaltView::Failed(ErrorView::Invalid { what: "ARTIFACT key"@, detail }),
            )
            &&& decoded_target_completion(b, answer) == Err::<TargetCompletionKeyView, HaltView>(
                HaltView::Failed(ErrorView::Invalid { what: "TARGET_COMPLETION key"@, detail }),
            )
            &&& fingerprint::decoded_fingerprint(b) == Err::<ActionKeyView, ErrorView>(
                ErrorView::Invalid { what: "ActionKey fingerprint"@, detail },
            )
        }),
{
    let b = codec::be_bytes(n as nat, 8) + rest;
    codec::lemma_be_bytes_len(n as nat, 8);
    codec::lemma_whole_is_at(b);
    codec::lemma_at_split(b, 0, codec::be_bytes(n as nat, 8), rest);
    codec::lemma_u64_round_trips(b, 0, n, "ACTION key"@);
    codec::lemma_u64_round_trips(b, 0, n, "ARTIFACT key"@);
    codec::lemma_u64_round_trips(b, 0, n, "TARGET_COMPLETION key"@);
    codec::lemma_u64_round_trips(b, 0, n, "ActionKey fingerprint"@);
}

/// There are no tree artifacts: no parent and no path below it has a child.
pub proof fn law_tree_children_are_never_made(parent: ArtifactRefView, rel: Seq<char>)
    ensures
        tree_child_of(parent, rel) matches Err(ErrorView::Unsupported { what, .. }) && what
            == "tree artifacts"@,
{
}

} // verus!
