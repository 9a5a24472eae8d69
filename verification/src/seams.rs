//! The two seams of an action: where an input path leads to, and where the bytes of artifacts are kept.
use vstd::prelude::*;
use vstd::hash_map::*;
use vstd::string::*;
use crate::digest::Digest;
use crate::error;
use crate::error::{Error, ErrorView};
use crate::keys::{
    ArtifactProducer, ArtifactProducerView, ArtifactRef, ArtifactRefView, GeneratingActionKey,
    GeneratingActionKeyView,
};
use crate::order;
use crate::order::{find_by_path, HasPath};
use crate::target;
use crate::target::{
    append_label, ActionTemplateView, ConfiguredTarget, ConfiguredTargetKey,
    ConfiguredTargetKeyView, ConfiguredTargetView,
};
use crate::text::{contains_text, copy_bytes};

verus! {

// ---------------------------------------------------------------------------------------------
// Input paths
// ---------------------------------------------------------------------------------------------

/// Where an input path of an action leads to. An unknown form is a typed error, never an edge that is
/// left out or an empty input.
pub trait InputResolver: Send + Sync {
    /// Whether the resolver may give this answer.
    spec fn may_resolve(
        &self,
        owner: ConfiguredTargetKeyView,
        ct: ConfiguredTargetView,
        input_path: Seq<char>,
        answer: Result<ArtifactRefView, ErrorView>,
    ) -> bool;

    /// The artifact that an input path of an action of `owner` stands for.
    fn resolve(
        &self,
        owner: &ConfiguredTargetKey,
        ct: &ConfiguredTarget,
        input_path: &str,
    ) -> (r: Result<ArtifactRef, Error>)
        ensures
            self.may_resolve(owner@, ct@, input_path@, error::result_view(r)),
    ;
}

/// The segment of two dots stands at position `i`, between slashes or the ends of the path.
pub open spec fn up_level_at(path: Seq<char>, i: int) -> bool {
    &&& 0 <= i
    &&& i + 2 <= path.len()
    &&& path[i] == '.'
    &&& path[i + 1] == '.'
    &&& i == 0 || path[i - 1] == '/'
    &&& i + 2 == path.len() || path[i + 2] == '/'
}

/// A path that leads forward from the root: not empty, not absolute, and no segment of it goes up.
pub open spec fn is_forward(path: Seq<char>) -> bool {
    &&& path.len() > 0
    &&& path[0] != '/'
    &&& forall|i: int| !#[trigger] up_level_at(path, i)
}

/// The first action that declares an output, by its position.
pub open spec fn declaring_action(actions: Seq<ActionTemplateView>, path: Seq<char>) -> Option<int>
    decreases actions.len(),
{
    if actions.len() == 0 {
        None
    } else {
        match declaring_action(actions.drop_last(), path) {
            Some(i) => Some(i),
            None => if actions.last().outputs.contains(path) {
                Some(actions.len() - 1)
            } else {
                None
            },
        }
    }
}

/// The artifact that an action of a target produces at a path.
pub open spec fn derived_ref(
    owner: ConfiguredTargetKeyView,
    action_index: u32,
    path: Seq<char>,
) -> ArtifactRefView {
    ArtifactRefView {
        exec_path: path,
        producer: ArtifactProducerView::Derived(GeneratingActionKeyView { owner, action_index }),
    }
}

/// The failure for a path that does not lead forward from the root.
pub open spec fn not_forward(owner: ConfiguredTargetKeyView, path: Seq<char>) -> ErrorView {
    ErrorView::Unsupported {
        what: "input path form"@,
        detail: "cannot resolve input '"@ + path + "' of "@ + target::target_label(owner)
            + ": only root-relative forward paths are supported (v1 SameTargetOrSource policy)"@,
    }
}

/// Where a path leads: to the first action of the target that declares it, else to the first output of
/// a direct dependency with that path, else to a source file.
pub open spec fn resolved(
    owner: ConfiguredTargetKeyView,
    ct: ConfiguredTargetView,
    path: Seq<char>,
) -> Result<ArtifactRefView, ErrorView> {
    if !is_forward(path) {
        Err(not_forward(owner, path))
    } else {
        match declaring_action(ct.actions, path) {
            Some(i) => Ok(derived_ref(owner, i as u32, path)),
            None => match order::first_with_path(ct.dep_outputs, path) {
                Some(d) => Ok(derived_ref(d.producer_ct, d.action_index, path)),
                None => Ok(
                    ArtifactRefView { exec_path: path, producer: ArtifactProducerView::Source },
                ),
            },
        }
    }
}

/// The characters of a text.
fn chars_of(s: &str) -> (r: Vec<char>)
    ensures
        r@ == s@,
{
    let mut v: Vec<char> = Vec::new();
    for c in iter: s.chars()
        invariant
            iter.seq() == s@,
            v@ == iter.seq().take(iter.index() as int),
    {
        v.push(c);
    }
    assert(v@ =~= s@);
    v
}

/// Whether a path leads forward from the root.
fn leads_forward(path: &str) -> (r: bool)
    ensures
        r == is_forward(path@),
{
    let p = chars_of(path);
    let n: usize = p.len();
    if n == 0 || p[0] == '/' {
        return false;
    }
    for i in 0..n
        invariant
            n == p@.len(),
            p@ == path@,
            forall|j: int| 0 <= j < i ==> !#[trigger] up_level_at(path@, j),
    {
        if n - i >= 2 && p[i] == '.' && p[i + 1] == '.' && (i == 0 || p[i - 1] == '/') && (n - i
            == 2 || p[i + 2] == '/') {
            assert(up_level_at(path@, i as int));
            return false;
        }
        assert(!up_level_at(path@, i as int));
    }
    true
}

/// The policy that looks at the target itself first, then at its direct dependencies, and takes any
/// other path for a source file.
#[derive(Clone, Copy)]
pub struct SameTargetOrSourceResolver;

impl InputResolver for SameTargetOrSourceResolver {
    open spec fn may_resolve(
        &self,
        owner: ConfiguredTargetKeyView,
        ct: ConfiguredTargetView,
        input_path: Seq<char>,
        answer: Result<ArtifactRefView, ErrorView>,
    ) -> bool {
        answer == resolved(owner, ct, input_path)
    }

    fn resolve(
        &self,
        owner: &ConfiguredTargetKey,
        ct: &ConfiguredTarget,
        input_path: &str,
    ) -> (r: Result<ArtifactRef, Error>) {
        if !leads_forward(input_path) {
            let mut detail = "cannot resolve input '".to_owned();
            detail.append(input_path);
            detail.append("' of ");
            append_label(&mut detail, owner);
            detail.append(
                ": only root-relative forward paths are supported (v1 SameTargetOrSource policy)",
            );
            return Err(Error::Unsupported { what: "input path form", detail });
        }
        let n: usize = ct.actions.len();
        for i in 0..n
            invariant
                n == ct.actions@.len(),
                is_forward(input_path@),
                declaring_action(ct@.actions.take(i as int), input_path@) is None,
        {
            proof {
                let head = ct@.actions.take(i + 1);
                assert(head.drop_last() =~= ct@.actions.take(i as int));
                assert(head.last() == ct.actions@[i as int]@);
            }
            if contains_text(&ct.actions[i].outputs, input_path) {
                proof {
                    lemma_declaring_stays(ct@.actions, input_path@, i + 1);
                }
                return Ok(
                    ArtifactRef {
                        exec_path: input_path.to_owned(),
                        producer: ArtifactProducer::Derived(
                            GeneratingActionKey { owner: owner.clone(), action_index: i as u32 },
                        ),
                    },
                );
            }
        }
        assert(ct@.actions.take(n as int) =~= ct@.actions);
        match find_by_path(&ct.dep_outputs, input_path) {
            Some(i) => Ok(
                ArtifactRef {
                    exec_path: input_path.to_owned(),
                    producer: ArtifactProducer::Derived(
                        GeneratingActionKey {
                            owner: ct.dep_outputs[i].producer_ct.clone(),
                            action_index: ct.dep_outputs[i].action_index,
                        },
                    ),
                },
            ),
            None => Ok(
                ArtifactRef {
                    exec_path: input_path.to_owned(),
                    producer: ArtifactProducer::Source,
                },
            ),
        }
    }
}

/// An action that declares a path among the first `n` stays the first one that does.
proof fn lemma_declaring_stays(actions: Seq<ActionTemplateView>, path: Seq<char>, n: int)
    requires
        0 <= n <= actions.len(),
        declaring_action(actions.take(n), path) is Some,
    ensures
        declaring_action(actions, path) == declaring_action(actions.take(n), path),
    decreases actions.len(),
{
    if n == actions.len() {
        assert(actions.take(n) =~= actions);
    } else {
        let head = actions.drop_last();
        assert(head.take(n) =~= actions.take(n));
        lemma_declaring_stays(head, path, n);
    }
}

proof fn lemma_declaring_action(actions: Seq<ActionTemplateView>, path: Seq<char>)
    ensures
        match declaring_action(actions, path) {
            Some(i) => {
                &&& 0 <= i < actions.len()
                &&& actions[i].outputs.contains(path)
                &&& forall|j: int| 0 <= j < i ==> !#[trigger] actions[j].outputs.contains(path)
            },
            None => forall|j: int|
                0 <= j < actions.len() ==> !#[trigger] actions[j].outputs.contains(path),
        },
    decreases actions.len(),
{
    if actions.len() > 0 {
        let head = actions.drop_last();
        lemma_declaring_action(head, path);
        match declaring_action(head, path) {
            Some(i) => {
                assert(head[i] == actions[i]);
                assert forall|j: int| 0 <= j < i implies !#[trigger] actions[j].outputs.contains(
                    path,
                ) by {
                    assert(head[j] == actions[j]);
                }
            },
            None => {
                assert forall|j: int| 0 <= j < head.len() implies !#[trigger] actions[
                    j
                ].outputs.contains(path) by {
                    assert(head[j] == actions[j]);
                }
            },
        }
    }
}

/// The target itself is the authority for its own outputs: a forward path that an action of the target
/// declares leads to the first such action, whatever the dependencies produce.
pub proof fn law_own_outputs_come_first(
    owner: ConfiguredTargetKeyView,
    ct: ConfiguredTargetView,
    path: Seq<char>,
    i: int,
)
    requires
        is_forward(path),
        0 <= i < ct.actions.len(),
        ct.actions[i].outputs.contains(path),
        forall|j: int| 0 <= j < i ==> !#[trigger] ct.actions[j].outputs.contains(path),
    ensures
        resolved(owner, ct, path) == Ok::<ArtifactRefView, ErrorView>(
            derived_ref(owner, i as u32, path),
        ),
        resolved(owner, ct, path) matches Ok(a) && a.exec_path == path && a.producer
            == ArtifactProducerView::Derived(
            GeneratingActionKeyView { owner, action_index: i as u32 },
        ),
{
    lemma_declaring_action(ct.actions, path);
}

/// A forward path that no action of the target declares leads to the dependency that produces it, and
/// to a source file exactly where none does.
pub proof fn law_undeclared_paths_lead_out(
    owner: ConfiguredTargetKeyView,
    ct: ConfiguredTargetView,
    path: Seq<char>,
)
    requires
        is_forward(path),
        forall|j: int| 0 <= j < ct.actions.len() ==> !#[trigger] ct.actions[j].outputs.contains(path),
    ensures
        resolved(owner, ct, path) == Ok::<ArtifactRefView, ErrorView>(
            match order::first_with_path(ct.dep_outputs, path) {
                Some(d) => derived_ref(d.producer_ct, d.action_index, path),
                None => ArtifactRefView {
                    exec_path: path,
                    producer: ArtifactProducerView::Source,
                },
            },
        ),
{
    lemma_declaring_action(ct.actions, path);
}

/// A forward path that no action of the target declares leads to the first output of a dependency with
/// that path: to the very target and action that are recorded there.
pub proof fn law_dependency_outputs_come_next(
    owner: ConfiguredTargetKeyView,
    ct: ConfiguredTargetView,
    path: Seq<char>,
    d: int,
)
    requires
        is_forward(path),
        forall|j: int| 0 <= j < ct.actions.len() ==> !#[trigger] ct.actions[j].outputs.contains(path),
        0 <= d < ct.dep_outputs.len(),
        ct.dep_outputs[d].exec_path == path,
        forall|j: int| 0 <= j < d ==> (#[trigger] ct.dep_outputs[j]).exec_path != path,
    ensures
        resolved(owner, ct, path) matches Ok(a) && a.exec_path == path && a.producer
            == ArtifactProducerView::Derived(
            GeneratingActionKeyView {
                owner: ct.dep_outputs[d].producer_ct,
                action_index: ct.dep_outputs[d].action_index,
            },
        ),
{
    lemma_declaring_action(ct.actions, path);
    order::law_first_with_path_is_the_first(ct.dep_outputs, path);
    assert(ct.dep_outputs[d].path_of() == path);
    match order::first_with_path(ct.dep_outputs, path) {
        Some(x) => {
            let i = choose|i: int|
                {
                    &&& 0 <= i < ct.dep_outputs.len()
                    &&& #[trigger] ct.dep_outputs[i] == x
                    &&& x.path_of() == path
                    &&& forall|j: int|
                        0 <= j < i ==> (#[trigger] ct.dep_outputs[j]).path_of() != path
                };
            assert(ct.dep_outputs[i].exec_path == path);
            if i < d {
                assert(ct.dep_outputs[i].exec_path != path);
            } else if d < i {
                assert(ct.dep_outputs[d].path_of() != path);
            }
        },
        None => {},
    }
}

/// A forward path that neither an action of the target nor a dependency produces is a source file.
pub proof fn law_other_paths_are_sources(
    owner: ConfiguredTargetKeyView,
    ct: ConfiguredTargetView,
    path: Seq<char>,
)
    requires
        is_forward(path),
        forall|j: int| 0 <= j < ct.actions.len() ==> !#[trigger] ct.actions[j].outputs.contains(path),
        forall|j: int|
            0 <= j < ct.dep_outputs.len() ==> (#[trigger] ct.dep_outputs[j]).exec_path != path,
    ensures
        resolved(owner, ct, path) matches Ok(a) && a.exec_path == path && a.producer is Source,
{
    lemma_declaring_action(ct.actions, path);
    order::law_first_with_path_is_the_first(ct.dep_outputs, path);
    if let Some(x) = order::first_with_path(ct.dep_outputs, path) {
        let i = choose|i: int|
            {
                &&& 0 <= i < ct.dep_outputs.len()
                &&& #[trigger] ct.dep_outputs[i] == x
                &&& x.path_of() == path
                &&& forall|j: int| 0 <= j < i ==> (#[trigger] ct.dep_outputs[j]).path_of() != path
            };
        assert(ct.dep_outputs[i].exec_path != path);
    }
}

/// A path is resolved if and only if it leads forward, always to an artifact with that very path; any
/// other form is `Unsupported`, and the failure names the path and the target.
pub proof fn law_only_forward_paths_resolve(
    owner: ConfiguredTargetKeyView,
    ct: ConfiguredTargetView,
    path: Seq<char>,
)
    ensures
        resolved(owner, ct, path) is Ok <==> is_forward(path),
        resolved(owner, ct, path) matches Ok(a) ==> a.exec_path == path,
        resolved(owner, ct, path) matches Err(e) ==> e is Unsupported,
        resolved(owner, ct, path) matches Err(e) ==> e == (ErrorView::Unsupported {
            what: "input path form"@,
            detail: "cannot resolve input '"@ + path + "' of "@ + ("//"@ + owner.package + ":"@
                + owner.name)
                + ": only root-relative forward paths are supported (v1 SameTargetOrSource policy)"@,
        }),
{
}

/// A path does not lead forward if it is empty, if it begins with a slash, or if two dots stand in it
/// between slashes or its ends.
pub proof fn law_up_level_paths_lead_nowhere(before: Seq<char>, after: Seq<char>)
    ensures
        !is_forward(Seq::empty()),
        !is_forward(seq!['/'] + after),
        (before.len() == 0 || before.last() == '/') && (after.len() == 0 || after[0] == '/')
            ==> !is_forward(before + seq!['.', '.'] + after),
{
    if (before.len() == 0 || before.last() == '/') && (after.len() == 0 || after[0] == '/') {
        assert(up_level_at(before + seq!['.', '.'] + after, before.len() as int));
    }
}

/// Every other path leads forward.
pub proof fn law_all_other_paths_lead_forward(path: Seq<char>) -> (i: int)
    requires
        path.len() > 0,
        path[0] != '/',
        !is_forward(path),
    ensures
        0 <= i,
        i + 2 <= path.len(),
        path.subrange(i, i + 2) == seq!['.', '.'],
        i == 0 || path[i - 1] == '/',
        i + 2 == path.len() || path[i + 2] == '/',
{
    let i = choose|i: int| #[trigger] up_level_at(path, i);
    assert(path.subrange(i, i + 2) =~= seq!['.', '.']);
    i
}

/// The policy of this crate answers with what it resolves a path to, and with nothing else.
pub proof fn law_policy_answers_what_it_resolves(
    owner: ConfiguredTargetKeyView,
    ct: ConfiguredTargetView,
    path: Seq<char>,
    answer: Result<ArtifactRefView, ErrorView>,
)
    ensures
        SameTargetOrSourceResolver.may_resolve(owner, ct, path, answer) <==> answer == resolved(
            owner,
            ct,
            path,
        ),
{
}

// ---------------------------------------------------------------------------------------------
// Bytes
// ---------------------------------------------------------------------------------------------

/// The one home of the bytes of artifacts, by digest. Bytes that are not there are a typed error, never
/// empty bytes.
pub trait BlobStore: Send + Sync {
    /// Whether the store may answer this for a digest.
    spec fn may_get(&self, digest: Seq<char>, answer: Result<Seq<u8>, ErrorView>) -> bool;

    /// Whether `after` may be the store once the bytes with a digest were put into `self`.
    spec fn may_put(&self, digest: Seq<char>, bytes: Seq<u8>, after: &Self) -> bool;

    /// Keeps bytes under their digest.
    fn put(&mut self, digest: &Digest, bytes: &[u8])
        ensures
            old(self).may_put(digest@, bytes@, final(self)),
    ;

    /// The bytes with the given digest.
    fn get(&self, digest: &Digest) -> (r: Result<Vec<u8>, Error>)
        ensures
            self.may_get(digest@, error::result_view(r)),
    ;
}

/// A store in memory.
pub struct InMemoryBlobStore {
    map: StringHashMap<Vec<u8>>,
}

impl View for InMemoryBlobStore {
    type V = Map<Seq<char>, Seq<u8>>;

    closed spec fn view(&self) -> Map<Seq<char>, Seq<u8>> {
        self.map@.map_values(|b: Vec<u8>| b@)
    }
}

/// What a map of blobs gives for a digest: the bytes, or that there are none.
pub open spec fn looked_up(blobs: Map<Seq<char>, Seq<u8>>, digest: Seq<char>) -> Result<
    Seq<u8>,
    ErrorView,
> {
    if blobs.dom().contains(digest) {
        Ok(blobs[digest])
    } else {
        Err(ErrorView::NotFound { what: "blob"@, detail: digest })
    }
}

impl InMemoryBlobStore {
    /// A store without any bytes.
    pub fn new() -> (s: InMemoryBlobStore)
        ensures
            s@ == Map::<Seq<char>, Seq<u8>>::empty(),
    {
        let s = InMemoryBlobStore { map: StringHashMap::new() };
        assert(s@ =~= Map::<Seq<char>, Seq<u8>>::empty());
        s
    }
}

impl Default for InMemoryBlobStore {
    fn default() -> (s: InMemoryBlobStore)
        ensures
            s@ == Map::<Seq<char>, Seq<u8>>::empty(),
    {
        InMemoryBlobStore::new()
    }
}

impl BlobStore for InMemoryBlobStore {
    open spec fn may_get(&self, digest: Seq<char>, answer: Result<Seq<u8>, ErrorView>) -> bool {
        answer == looked_up(self@, digest)
    }

    open spec fn may_put(&self, digest: Seq<char>, bytes: Seq<u8>, after: &Self) -> bool {
        after@ == self@.insert(digest, bytes)
    }

    fn put(&mut self, digest: &Digest, bytes: &[u8]) {
        self.map.insert(digest.to_hex(), copy_bytes(bytes));
        assert(self@ =~= old(self)@.insert(digest@, bytes@));
    }

    fn get(&self, digest: &Digest) -> (r: Result<Vec<u8>, Error>) {
        match self.map.get(digest.hex.as_str()) {
            Some(b) => Ok(copy_bytes(b.as_slice())),
            None => Err(Error::NotFound { what: "blob".to_owned(), detail: digest.to_hex() }),
        }
    }
}

/// Each of the bytes is kept under its own digest.
pub open spec fn content_addressed(
    blobs: Map<Seq<char>, Seq<u8>>,
    digest_of: spec_fn(Seq<u8>) -> Seq<char>,
) -> bool {
    forall|d: Seq<char>| #[trigger] blobs.dom().contains(d) ==> digest_of(blobs[d]) == d
}

/// A store gives back what was put, and putting bytes changes nothing for any other digest.
pub proof fn law_put_then_get(
    blobs: Map<Seq<char>, Seq<u8>>,
    digest: Seq<char>,
    bytes: Seq<u8>,
    other: Seq<char>,
)
    ensures
        looked_up(blobs.insert(digest, bytes), digest) == Ok::<Seq<u8>, ErrorView>(bytes),
        other != digest ==> looked_up(blobs.insert(digest, bytes), other) == looked_up(
            blobs,
            other,
        ),
{
}

/// An empty store has bytes for no digest: absence is a `NotFound` that names the digest, never empty
/// bytes.
pub proof fn law_empty_store_finds_nothing(digest: Seq<char>)
    ensures
        looked_up(Map::empty(), digest) == Err::<Seq<u8>, ErrorView>(
            ErrorView::NotFound { what: "blob"@, detail: digest },
        ),
{
}

/// Bytes that are not there are a `NotFound` that names the digest, never empty bytes; bytes that are
/// there are given as they are, empty ones too.
pub proof fn law_absent_bytes_are_not_found(blobs: Map<Seq<char>, Seq<u8>>, digest: Seq<char>)
    ensures
        !blobs.dom().contains(digest) ==> looked_up(blobs, digest) == Err::<Seq<u8>, ErrorView>(
            ErrorView::NotFound { what: "blob"@, detail: digest },
        ),
        blobs.dom().contains(digest) ==> looked_up(blobs, digest) == Ok::<Seq<u8>, ErrorView>(
            blobs[digest],
        ),
        looked_up(Map::empty(), digest) is Err,
{
}

/// A store in memory gives back, after bytes were put under a digest, these bytes for the digest, and
/// for any other digest what it gave before.
pub proof fn law_memory_gives_back_what_was_put(
    before: InMemoryBlobStore,
    digest: Seq<char>,
    bytes: Seq<u8>,
    after: InMemoryBlobStore,
    other: Seq<char>,
    answer: Result<Seq<u8>, ErrorView>,
)
    requires
        before.may_put(digest, bytes, &after),
    ensures
        after.may_get(digest, answer) <==> answer == Ok::<Seq<u8>, ErrorView>(bytes),
        other != digest ==> (after.may_get(other, answer) <==> before.may_get(other, answer)),
{
}

/// A store that is filled with bytes under their own digests stays content addressed, whatever the
/// digest function: what it gives for a digest has that digest. Where no two byte strings have one
/// digest, nothing that was there is lost.
pub proof fn law_store_stays_content_addressed(
    blobs: Map<Seq<char>, Seq<u8>>,
    digest_of: spec_fn(Seq<u8>) -> Seq<char>,
    bytes: Seq<u8>,
)
    requires
        content_addressed(blobs, digest_of),
    ensures
        content_addressed(blobs.insert(digest_of(bytes), bytes), digest_of),
        forall|d: Seq<char>| #[trigger]
            looked_up(blobs.insert(digest_of(bytes), bytes), d) matches Ok(b) ==> digest_of(b) == d,
        (forall|x: Seq<u8>, y: Seq<u8>| #[trigger] digest_of(x) == #[trigger] digest_of(y) ==> x == y)
            ==> forall|d: Seq<char>| #[trigger]
            looked_up(blobs, d) is Ok ==> looked_up(
                blobs.insert(digest_of(bytes), bytes),
                d,
            ) == looked_up(blobs, d),
{
    let after = blobs.insert(digest_of(bytes), bytes);
    assert forall|d: Seq<char>| #[trigger] after.dom().contains(d) implies digest_of(after[d])
        == d by {
        if d != digest_of(bytes) {
            assert(blobs.dom().contains(d));
        }
    }
}

} // verus!
