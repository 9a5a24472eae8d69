//! The artifacts that the actions of a target declare, and the check that no path is declared twice.
use vstd::prelude::*;
use vstd::string::*;
use crate::error::{Error, ErrorView};
use crate::keys::{
    ArtifactProducer, ArtifactProducerView, ArtifactRef, ArtifactRefView, GeneratingActionKey,
    GeneratingActionKeyView,
};
use crate::order;
use crate::order::{find_by_path, HasPath, Pathed};
use crate::seams;
use crate::target;
use crate::target::{
    append_label, ActionTemplateView, ConfiguredTarget, ConfiguredTargetKey,
    ConfiguredTargetKeyView, ConfiguredTargetView,
};
use crate::text;
use crate::text::append_decimal;

verus! {

/// One declared output: the position of the action and the path.
pub struct DeclarationView {
    pub action: int,
    pub path: Seq<char>,
}

impl HasPath for DeclarationView {
    open spec fn path_of(self) -> Seq<char> {
        self.path
    }
}

/// One declared output.
struct Declaration {
    action: usize,
    path: String,
}

impl View for Declaration {
    type V = DeclarationView;

    closed spec fn view(&self) -> DeclarationView {
        DeclarationView { action: self.action as int, path: self.path@ }
    }
}

impl Pathed for Declaration {
    fn path_text(&self) -> (r: &str) {
        self.path.as_str()
    }
}

/// The outputs that one action declares.
pub open spec fn declared_by(action: int, outputs: Seq<Seq<char>>) -> Seq<DeclarationView> {
    outputs.map_values(|path: Seq<char>| DeclarationView { action, path })
}

/// All declared outputs, action by action, in the order of their declaration.
pub open spec fn declarations(actions: Seq<ActionTemplateView>) -> Seq<DeclarationView>
    decreases actions.len(),
{
    if actions.len() == 0 {
        Seq::empty()
    } else {
        declarations(actions.drop_last()) + declared_by(actions.len() - 1, actions.last().outputs)
    }
}

/// The first declaration of a path that was declared before, with the one before it.
pub open spec fn conflict_in(d: Seq<DeclarationView>) -> Option<(DeclarationView, DeclarationView)>
    decreases d.len(),
{
    if d.len() == 0 {
        None
    } else {
        match conflict_in(d.drop_last()) {
            Some(c) => Some(c),
            None => match order::first_with_path(d.drop_last(), d.last().path) {
                Some(previous) => Some((previous, d.last())),
                None => None,
            },
        }
    }
}

/// The failure for a path that two declarations name.
pub open spec fn conflict_error(
    owner: ConfiguredTargetKeyView,
    previous: DeclarationView,
    repeated: DeclarationView,
) -> ErrorView {
    ErrorView::Conflict {
        what: "duplicate declared output"@,
        detail: target::target_label(owner) + ": '"@ + repeated.path + "' is declared by action #"@
            + text::decimal(previous.action as nat) + " and action #"@ + text::decimal(
            repeated.action as nat,
        ),
    }
}

/// The artifacts of declared outputs.
pub open spec fn stamped(owner: ConfiguredTargetKeyView, d: Seq<DeclarationView>) -> Seq<
    ArtifactRefView,
> {
    d.map_values(|x: DeclarationView| seams::derived_ref(owner, x.action as u32, x.path))
}

/// The artifacts that the actions of a target declare, in the order of their declaration; a path that
/// is declared twice is a conflict.
pub open spec fn outputs_of(
    owner: ConfiguredTargetKeyView,
    ct: ConfiguredTargetView,
) -> Result<Seq<ArtifactRefView>, ErrorView> {
    match conflict_in(declarations(ct.actions)) {
        Some((previous, repeated)) => Err(conflict_error(owner, previous, repeated)),
        None => Ok(stamped(owner, declarations(ct.actions))),
    }
}

/// A conflict among the first declarations is the conflict of all of them.
proof fn lemma_conflict_stays(d: Seq<DeclarationView>, n: int)
    requires
        0 <= n <= d.len(),
        conflict_in(d.take(n)) is Some,
    ensures
        conflict_in(d) == conflict_in(d.take(n)),
    decreases d.len(),
{
    if n == d.len() {
        assert(d.take(n) =~= d);
    } else {
        assert(d.drop_last().take(n) =~= d.take(n));
        lemma_conflict_stays(d.drop_last(), n);
    }
}

/// The declarations of the first actions are the first declarations.
proof fn lemma_declarations_prefix(actions: Seq<ActionTemplateView>, n: int)
    requires
        0 <= n <= actions.len(),
    ensures
        declarations(actions.take(n)).len() <= declarations(actions).len(),
        declarations(actions).take(declarations(actions.take(n)).len() as int) == declarations(
            actions.take(n),
        ),
    decreases actions.len(),
{
    let part = declarations(actions.take(n));
    if n == actions.len() {
        assert(actions.take(n) =~= actions);
        assert(part.take(part.len() as int) =~= part);
    } else {
        let head = actions.drop_last();
        assert(head.take(n) =~= actions.take(n));
        lemma_declarations_prefix(head, n);
        assert(declarations(actions).take(part.len() as int) =~= declarations(head).take(
            part.len() as int,
        ));
    }
}

/// The failure for a path that two declarations name.
fn conflict(owner: &ConfiguredTargetKey, path: &str, previous: usize, repeated: usize) -> (e: Error)
    ensures
        e@ == conflict_error(
            owner@,
            (DeclarationView { action: previous as int, path: path@ }),
            (DeclarationView { action: repeated as int, path: path@ }),
        ),
{
    let mut detail = "".to_owned();
    proof {
        reveal_strlit("");
    }
    append_label(&mut detail, owner);
    assert(detail@ =~= target::target_label(owner@));
    detail.append(": '");
    detail.append(path);
    detail.append("' is declared by action #");
    append_decimal(&mut detail, previous as u64);
    detail.append(" and action #");
    append_decimal(&mut detail, repeated as u64);
    Error::Conflict { what: "duplicate declared output".to_owned(), detail }
}

/// The artifacts that the actions of a target declare, in the order of their declaration. A path that
/// is declared twice, by two actions or by one, is a `Conflict`.
pub fn derived_outputs(owner: &ConfiguredTargetKey, ct: &ConfiguredTarget) -> (r: Result<
    Vec<ArtifactRef>,
    Error,
>)
    ensures
        match r {
            Ok(refs) => outputs_of(owner@, ct@) == Ok::<Seq<ArtifactRefView>, ErrorView>(
                order::views(refs@),
            ),
            Err(e) => outputs_of(owner@, ct@) == Err::<Seq<ArtifactRefView>, ErrorView>(e@),
        },
{
    let mut seen: Vec<Declaration> = Vec::new();
    let mut refs: Vec<ArtifactRef> = Vec::new();
    let ghost all = declarations(ct@.actions);
    let n: usize = ct.actions.len();
    assert(order::views(seen@) =~= declarations(ct@.actions.take(0)));
    assert(order::views(refs@) =~= stamped(owner@, order::views(seen@)));
    for idx in 0..n
        invariant
            n == ct.actions@.len(),
            all == declarations(ct@.actions),
            order::views(seen@) == declarations(ct@.actions.take(idx as int)),
            conflict_in(order::views(seen@)) is None,
            order::views(refs@) == stamped(owner@, order::views(seen@)),
    {
        let ghost before = declarations(ct@.actions.take(idx as int));
        let ghost these = declared_by(idx as int, ct@.actions[idx as int].outputs);
        let outputs = &ct.actions[idx].outputs;
        let m: usize = outputs.len();
        proof {
            let head = ct@.actions.take(idx + 1);
            assert(head.drop_last() =~= ct@.actions.take(idx as int));
            assert(head.last() == ct@.actions[idx as int]);
            assert(ct@.actions[idx as int] == ct.actions@[idx as int]@);
            assert(declarations(head) == before + these);
            lemma_declarations_prefix(ct@.actions, idx + 1);
        }
        assert(order::views(seen@) =~= before + these.take(0));
        for k in 0..m
            invariant
                idx < n,
                n == ct.actions@.len(),
                *outputs == ct.actions@[idx as int].outputs,
                m == outputs@.len(),
                all == declarations(ct@.actions),
                these == declared_by(idx as int, text::texts(outputs@)),
                (before + these).len() <= all.len(),
                all.take((before + these).len() as int) == before + these,
                order::views(seen@) == before + these.take(k as int),
                conflict_in(order::views(seen@)) is None,
                order::views(refs@) == stamped(owner@, order::views(seen@)),
        {
            let o = outputs[k].as_str();
            let ghost sofar = order::views(seen@);
            let ghost next = (sofar.len() + 1) as int;
            let ghost x = DeclarationView { action: idx as int, path: o@ };
            proof {
                assert(text::texts(outputs@)[k as int] == o@);
                assert(these[k as int] == x);
                assert(sofar.push(x) =~= before + these.take(k + 1));
                assert(sofar.push(x).drop_last() =~= sofar);
                assert(all.take((before + these).len() as int).take(next) =~= all.take(next));
                assert((before + these).take(next) =~= sofar.push(x));
            }
            match find_by_path(&seen, o) {
                Some(i) => {
                    proof {
                        assert(conflict_in(sofar.push(x)) == Some((seen@[i as int]@, x)));
                        lemma_conflict_stays(all, next);
                        lemma_found_index(sofar, o@);
                    }
                    return Err(conflict(owner, o, seen[i].action, idx));
                },
                None => {},
            }
            let ghost listed = order::views(refs@);
            let a = ArtifactRef {
                exec_path: outputs[k].clone(),
                producer: ArtifactProducer::Derived(
                    GeneratingActionKey { owner: owner.clone(), action_index: idx as u32 },
                ),
            };
            refs.push(a);
            let d = Declaration { action: idx, path: outputs[k].clone() };
            seen.push(d);
            proof {
                assert(order::views(seen@) =~= sofar.push(x));
                assert(order::views(refs@) =~= listed.push(a@));
                assert(a@ == seams::derived_ref(owner@, x.action as u32, x.path));
                assert(stamped(owner@, sofar.push(x)) =~= stamped(owner@, sofar).push(a@));
            }
        }
        assert(these.take(m as int) =~= these);
    }
    assert(ct@.actions.take(n as int) =~= ct@.actions);
    Ok(refs)
}

// ---------------------------------------------------------------------------------------------
// Laws
// ---------------------------------------------------------------------------------------------

/// `repeated` is the first declaration of a path that was declared before, and `previous` the one that
/// declared it.
pub open spec fn first_repetition(
    d: Seq<DeclarationView>,
    previous: DeclarationView,
    repeated: DeclarationView,
) -> bool {
    exists|i: int, j: int|
        0 <= i < j < d.len() && #[trigger] d[i] == previous && #[trigger] d[j] == repeated
            && previous.path == repeated.path && order::distinct_paths(d.take(j))
}

proof fn lemma_found_index(d: Seq<DeclarationView>, path: Seq<char>)
    ensures
        match order::first_with_path(d, path) {
            Some(x) => exists|i: int| 0 <= i < d.len() && d[i] == x && x.path == path,
            None => forall|i: int| 0 <= i < d.len() ==> #[trigger] d[i].path_of() != path,
        },
    decreases d.len(),
{
    if d.len() > 0 {
        let tail = d.drop_first();
        lemma_found_index(tail, path);
        if d[0].path_of() != path {
            match order::first_with_path(tail, path) {
                Some(x) => {
                    let i = choose|i: int| 0 <= i < tail.len() && tail[i] == x && x.path == path;
                    assert(d[i + 1] == x);
                },
                None => {
                    assert forall|i: int| 0 <= i < d.len() implies #[trigger] d[i].path_of()
                        != path by {
                        if i > 0 {
                            assert(tail[i - 1] == d[i]);
                            assert(tail[i - 1].path_of() != path);
                        }
                    }
                },
            }
        } else {
            assert(d[0] == d[0]);
        }
    }
}

/// A conflict names the first declaration that repeats a path and the one that it repeats, and there is
/// none exactly where all paths are distinct.
pub proof fn law_conflict_is_the_first_repetition(d: Seq<DeclarationView>)
    ensures
        conflict_in(d) is None <==> order::distinct_paths(d),
        conflict_in(d) matches Some((previous, repeated)) ==> first_repetition(
            d,
            previous,
            repeated,
        ),
    decreases d.len(),
{
    if d.len() > 0 {
        let head = d.drop_last();
        let last = d.last();
        law_conflict_is_the_first_repetition(head);
        lemma_found_index(head, last.path);
        match conflict_in(head) {
            Some((previous, repeated)) => {
                let (i, j) = choose|i: int, j: int|
                    0 <= i < j < head.len() && #[trigger] head[i] == previous && #[trigger] head[j]
                        == repeated && previous.path == repeated.path && order::distinct_paths(
                        head.take(j),
                    );
                assert(d[i] == previous && d[j] == repeated);
                assert(head.take(j) =~= d.take(j));
                assert(d[i].path_of() == d[j].path_of());
                assert(!order::distinct_paths(d));
            },
            None => {
                match order::first_with_path(head, last.path) {
                    Some(x) => {
                        let i = choose|i: int|
                            0 <= i < head.len() && head[i] == x && x.path == last.path;
                        let j = d.len() - 1;
                        assert(d[i] == x && d[j] == last);
                        assert(d.take(j) =~= head);
                        assert(d[i].path_of() == d[j].path_of());
                    },
                    None => {
                        assert forall|i: int, j: int| 0 <= i < j < d.len() implies #[trigger] d[
                            i
                        ].path_of() != #[trigger] d[j].path_of() by {
                            assert(head[i].path_of() != last.path);
                            if j < head.len() {
                                assert(head[i].path_of() != head[j].path_of());
                            }
                        }
                    },
                }
            },
        }
    }
}

/// Each path has one producer: where the outputs of a target are known, no two of them have one path;
/// and where a path is declared twice, there are none but a `Conflict`.
pub proof fn law_each_path_has_one_producer(owner: ConfiguredTargetKeyView, ct: ConfiguredTargetView)
    ensures
        outputs_of(owner, ct) is Ok <==> order::distinct_paths(declarations(ct.actions)),
        outputs_of(owner, ct) matches Ok(refs) ==> forall|i: int, j: int|
            0 <= i < j < refs.len() ==> (#[trigger] refs[i]).exec_path != (#[trigger] refs[
                j
            ]).exec_path,
        outputs_of(owner, ct) matches Err(e) ==> e is Conflict,
{
    let d = declarations(ct.actions);
    law_conflict_is_the_first_repetition(d);
    if let Ok(refs) = outputs_of(owner, ct) {
        assert forall|i: int, j: int| 0 <= i < j < refs.len() implies (#[trigger] refs[i]).exec_path
            != (#[trigger] refs[j]).exec_path by {
            assert(d[i].path_of() != d[j].path_of());
        }
    }
}

proof fn lemma_listed_is_declared(actions: Seq<ActionTemplateView>, k: int)
    requires
        0 <= k < declarations(actions).len(),
    ensures
        ({
            let x = declarations(actions)[k];
            0 <= x.action < actions.len() && actions[x.action].outputs.contains(x.path)
        }),
    decreases actions.len(),
{
    let head = actions.drop_last();
    let n = declarations(head).len();
    if k < n {
        lemma_listed_is_declared(head, k);
        assert(head[declarations(head)[k].action] == actions[declarations(head)[k].action]);
    } else {
        assert(actions.last().outputs[k - n] == declarations(actions)[k].path);
    }
}

proof fn lemma_declared_is_listed(actions: Seq<ActionTemplateView>, action: int, path: Seq<char>)
    requires
        0 <= action < actions.len(),
        actions[action].outputs.contains(path),
    ensures
        exists|k: int|
            0 <= k < declarations(actions).len() && #[trigger] declarations(actions)[k] == (
            DeclarationView { action, path }),
    decreases actions.len(),
{
    let head = actions.drop_last();
    let n = declarations(head).len();
    let all = declarations(actions);
    let x = DeclarationView { action, path };
    if action < head.len() {
        assert(head[action] == actions[action]);
        lemma_declared_is_listed(head, action, path);
        let k = choose|k: int|
            0 <= k < declarations(head).len() && #[trigger] declarations(head)[k] == x;
        assert(all[k] == x);
    } else {
        let j = choose|j: int| 0 <= j < actions.last().outputs.len() && actions.last().outputs[j]
            == path;
        assert(all[n + j] == x);
    }
}

/// The outputs of a target are all that its actions declare, and nothing else.
pub proof fn law_outputs_are_the_declared_ones(
    owner: ConfiguredTargetKeyView,
    ct: ConfiguredTargetView,
    action: int,
    path: Seq<char>,
)
    requires
        outputs_of(owner, ct) is Ok,
        0 <= action < ct.actions.len(),
    ensures
        ct.actions[action].outputs.contains(path) ==> outputs_of(owner, ct)->Ok_0.contains(
            seams::derived_ref(owner, action as u32, path),
        ),
        forall|k: int|
            0 <= k < outputs_of(owner, ct)->Ok_0.len() ==> exists|a: int|
                0 <= a < ct.actions.len() && (#[trigger] ct.actions[a]).outputs.contains(
                    (#[trigger] outputs_of(owner, ct)->Ok_0[k]).exec_path,
                ) && outputs_of(owner, ct)->Ok_0[k] == seams::derived_ref(
                    owner,
                    a as u32,
                    outputs_of(owner, ct)->Ok_0[k].exec_path,
                ),
{
    let d = declarations(ct.actions);
    let refs = outputs_of(owner, ct)->Ok_0;
    if ct.actions[action].outputs.contains(path) {
        lemma_declared_is_listed(ct.actions, action, path);
        let k = choose|k: int|
            0 <= k < d.len() && #[trigger] d[k] == (DeclarationView { action, path });
        assert(refs[k] == seams::derived_ref(owner, action as u32, path));
    }
    assert forall|k: int| 0 <= k < refs.len() implies exists|a: int|
        0 <= a < ct.actions.len() && (#[trigger] ct.actions[a]).outputs.contains(
            (#[trigger] refs[k]).exec_path,
        ) && refs[k] == seams::derived_ref(owner, a as u32, refs[k].exec_path) by {
        lemma_listed_is_declared(ct.actions, k);
        assert(ct.actions[d[k].action].outputs.contains(refs[k].exec_path));
    }
}

/// Each output of a target names its own producer: an output that an action
/// declares is there, produced by this action of this target; and what is there was declared by the
/// action that its key names.
#[verifier::spinoff_prover]
#[verifier::rlimit(40)]
pub proof fn law_outputs_name_their_producers(
    owner: ConfiguredTargetKeyView,
    ct: ConfiguredTargetView,
    action: int,
    path: Seq<char>,
    k: int,
)
    requires
        outputs_of(owner, ct) is Ok,
        0 <= action < ct.actions.len(),
        0 <= k < outputs_of(owner, ct)->Ok_0.len(),
    ensures
        ct.actions[action].outputs.contains(path) ==> outputs_of(owner, ct)->Ok_0.contains(
            ArtifactRefView {
                exec_path: path,
                producer: ArtifactProducerView::Derived(
                    GeneratingActionKeyView { owner, action_index: action as u32 },
                ),
            },
        ),
        outputs_of(owner, ct)->Ok_0[k].producer matches ArtifactProducerView::Derived(g) && g.owner
            == owner && exists|a: int|
            {
                &&& 0 <= a < ct.actions.len()
                &&& (#[trigger] ct.actions[a]).outputs.contains(
                    outputs_of(owner, ct)->Ok_0[k].exec_path,
                )
                &&& g.action_index == a as u32
            },
{
    let d = declarations(ct.actions);
    let refs = outputs_of(owner, ct)->Ok_0;
    if ct.actions[action].outputs.contains(path) {
        lemma_declared_is_listed(ct.actions, action, path);
        let n = choose|n: int|
            0 <= n < d.len() && #[trigger] d[n] == (DeclarationView { action, path });
        assert(refs[n] == (ArtifactRefView {
            exec_path: path,
            producer: ArtifactProducerView::Derived(
                GeneratingActionKeyView { owner, action_index: action as u32 },
            ),
        }));
    }
    lemma_listed_is_declared(ct.actions, k);
    assert(ct.actions[d[k].action].outputs.contains(refs[k].exec_path));
}

/// A target with one more action has the outputs that it had, and behind them those of the action, one
/// by one in the order of their declaration and produced by it. They are known if and only if those
/// before are, the action declares no path twice, and none that is there already; and a conflict among
/// those before stays the conflict.
#[verifier::spinoff_prover]
#[verifier::rlimit(40)]
pub proof fn law_outputs_grow_by_action(
    owner: ConfiguredTargetKeyView,
    ct: ConfiguredTargetView,
    more: ConfiguredTargetView,
    t: ActionTemplateView,
)
    requires
        more.actions == ct.actions.push(t),
    ensures
        ct.actions.len() == 0 ==> outputs_of(owner, ct) == Ok::<Seq<ArtifactRefView>, ErrorView>(
            Seq::empty(),
        ),
        outputs_of(owner, ct) is Err ==> outputs_of(owner, more) == outputs_of(owner, ct),
        outputs_of(owner, more) is Ok <==> {
            &&& outputs_of(owner, ct) is Ok
            &&& t.outputs.no_duplicates()
            &&& forall|i: int, k: int|
                0 <= i < t.outputs.len() && 0 <= k < outputs_of(owner, ct)->Ok_0.len()
                    ==> #[trigger] t.outputs[i] != (#[trigger] outputs_of(owner, ct)->Ok_0[k]).exec_path
        },
        outputs_of(owner, more) matches Ok(refs) ==> {
            let n = outputs_of(owner, ct)->Ok_0.len();
            &&& refs.len() == n + t.outputs.len()
            &&& refs.take(n as int) == outputs_of(owner, ct)->Ok_0
            &&& forall|i: int|
                0 <= i < t.outputs.len() ==> #[trigger] refs[n + i] == (ArtifactRefView {
                    exec_path: t.outputs[i],
                    producer: ArtifactProducerView::Derived(
                        GeneratingActionKeyView { owner, action_index: ct.actions.len() as u32 },
                    ),
                })
        },
{
    let d = declarations(ct.actions);
    let these = declared_by(ct.actions.len() as int, t.outputs);
    let all = declarations(more.actions);
    assert(more.actions.drop_last() =~= ct.actions);
    assert(all == d + these);
    assert(all.take(d.len() as int) =~= d);
    law_conflict_is_the_first_repetition(d);
    law_conflict_is_the_first_repetition(all);
    if conflict_in(d) is Some {
        lemma_conflict_stays(all, d.len() as int);
    }
    if ct.actions.len() == 0 {
        assert(stamped(owner, d) =~= Seq::empty());
    }
    let old_refs = stamped(owner, d);
    if order::distinct_paths(all) {
        assert forall|i: int, j: int| 0 <= i < j < d.len() implies #[trigger] d[i].path_of()
            != #[trigger] d[j].path_of() by {
            assert(all[i].path_of() != all[j].path_of());
        }
        assert forall|i: int, j: int|
            0 <= i < t.outputs.len() && 0 <= j < t.outputs.len() && i
                != j implies t.outputs[i] != t.outputs[j] by {
            if i < j {
                assert(all[d.len() + i].path_of() != all[d.len() + j].path_of());
            } else {
                assert(all[d.len() + j].path_of() != all[d.len() + i].path_of());
            }
        }
        assert forall|i: int, k: int|
            0 <= i < t.outputs.len() && 0 <= k < old_refs.len() implies #[trigger] t.outputs[i] != (
        #[trigger] old_refs[k]).exec_path by {
            assert(all[k].path_of() != all[d.len() + i].path_of());
        }
        assert(stamped(owner, all).take(d.len() as int) =~= old_refs);
    }
    if order::distinct_paths(d) && t.outputs.no_duplicates() && (forall|i: int, k: int|
        0 <= i < t.outputs.len() && 0 <= k < old_refs.len() ==> #[trigger] t.outputs[i] != (
        #[trigger] old_refs[k]).exec_path) {
        assert forall|i: int, j: int| 0 <= i < j < all.len() implies #[trigger] all[i].path_of()
            != #[trigger] all[j].path_of() by {
            if j < d.len() {
                assert(d[i].path_of() != d[j].path_of());
            } else if i < d.len() {
                assert(old_refs[i].exec_path == all[i].path);
                assert(t.outputs[j - d.len()] != old_refs[i].exec_path);
            } else {
                assert(t.outputs[i - d.len()] != t.outputs[j - d.len()]);
            }
        }
    }
}

/// The first path that is declared again is what a conflict names, with the action that declared it and
/// the one that declares it again: where the outputs of the actions so far, and of the last one up to
/// its output `j`, are known, and output `j` has a path that action `a` declared among them.
#[verifier::spinoff_prover]
#[verifier::rlimit(40)]
pub proof fn law_conflict_names_both_actions(
    owner: ConfiguredTargetKeyView,
    sofar: ConfiguredTargetView,
    ct: ConfiguredTargetView,
    j: int,
    a: int,
)
    requires
        ct.actions.len() > 0,
        0 <= j < ct.actions.last().outputs.len(),
        sofar.actions.len() == ct.actions.len(),
        sofar.actions.drop_last() == ct.actions.drop_last(),
        sofar.actions.last().outputs == ct.actions.last().outputs.take(j),
        outputs_of(owner, sofar) is Ok,
        0 <= a < sofar.actions.len(),
        sofar.actions[a].outputs.contains(ct.actions.last().outputs[j]),
    ensures
        outputs_of(owner, ct) == Err::<Seq<ArtifactRefView>, ErrorView>(
            ErrorView::Conflict {
                what: "duplicate declared output"@,
                detail: "//"@ + owner.package + ":"@ + owner.name + ": '"@
                    + ct.actions.last().outputs[j] + "' is declared by action #"@ + text::decimal(
                    a as nat,
                ) + " and action #"@ + text::decimal((ct.actions.len() - 1) as nat),
            },
        ),
{
    let path = ct.actions.last().outputs[j];
    let n = ct.actions.len() - 1;
    let d = declarations(sofar.actions);
    let all = declarations(ct.actions);
    let x = DeclarationView { action: n, path };
    law_conflict_is_the_first_repetition(d);
    assert(all.take(d.len() as int) =~= d);
    let next = (d.len() + 1) as int;
    assert(all.take(next) =~= d.push(x));
    assert(d.push(x).drop_last() =~= d);
    lemma_declared_is_listed(sofar.actions, a, path);
    let y = DeclarationView { action: a, path };
    let m = choose|m: int| 0 <= m < d.len() && #[trigger] d[m] == y;
    lemma_found_index(d, path);
    match order::first_with_path(d, path) {
        Some(z) => {
            let i = choose|i: int| 0 <= i < d.len() && d[i] == z && z.path == path;
            if i < m {
                assert(d[i].path_of() != d[m].path_of());
            } else if m < i {
                assert(d[m].path_of() != d[i].path_of());
            }
        },
        None => {
            assert(d[m].path_of() != path);
        },
    }
    lemma_conflict_stays(all, next);
    assert(conflict_in(all) == Some((y, x)));
}

/// An input that a sibling action produces is the very artifact that completion demands: where the
/// outputs of a target are known, the path of each that leads forward resolves to it.
pub proof fn law_sibling_inputs_are_the_stamped_outputs(
    owner: ConfiguredTargetKeyView,
    ct: ConfiguredTargetView,
    k: int,
)
    requires
        outputs_of(owner, ct) is Ok,
        0 <= k < outputs_of(owner, ct)->Ok_0.len(),
        seams::is_forward(outputs_of(owner, ct)->Ok_0[k].exec_path),
    ensures
        seams::resolved(owner, ct, outputs_of(owner, ct)->Ok_0[k].exec_path) == Ok::<
            ArtifactRefView,
            ErrorView,
        >(outputs_of(owner, ct)->Ok_0[k]),
{
    let d = declarations(ct.actions);
    let x = d[k];
    law_conflict_is_the_first_repetition(d);
    lemma_listed_is_declared(ct.actions, k);
    assert forall|j: int| 0 <= j < x.action implies !#[trigger] ct.actions[j].outputs.contains(
        x.path,
    ) by {
        if ct.actions[j].outputs.contains(x.path) {
            lemma_declared_is_listed(ct.actions, j, x.path);
            let m = choose|m: int|
                0 <= m < d.len() && #[trigger] d[m] == (DeclarationView { action: j, path: x.path });
            if m < k {
                assert(d[m].path_of() != d[k].path_of());
            } else if k < m {
                assert(d[k].path_of() != d[m].path_of());
            }
        }
    }
    seams::law_own_outputs_come_first(owner, ct, x.path, x.action);
}

} // verus!
