//! The analysed targets that actions belong to, as far as execution reads them.
use vstd::prelude::*;
use vstd::string::*;
use crate::order;
use crate::order::{HasPath, Pathed};
use crate::text;
use crate::text::{copy_bytes, copy_texts};

verus! {

/// The identity of a configured target. Its canonical bytes are its one encoding, and what tells two
/// keys apart; package and name serve in messages.
#[derive(PartialEq, Eq, Hash, PartialOrd, Ord, Debug)]
pub struct ConfiguredTargetKey {
    pub package: String,
    pub name: String,
    pub canonical: Vec<u8>,
}

/// What a [`ConfiguredTargetKey`] stands for.
pub struct ConfiguredTargetKeyView {
    pub package: Seq<char>,
    pub name: Seq<char>,
    pub canonical: Seq<u8>,
}

impl View for ConfiguredTargetKey {
    type V = ConfiguredTargetKeyView;

    open spec fn view(&self) -> ConfiguredTargetKeyView {
        ConfiguredTargetKeyView {
            package: self.package@,
            name: self.name@,
            canonical: self.canonical@,
        }
    }
}

impl Clone for ConfiguredTargetKey {
    fn clone(&self) -> (r: ConfiguredTargetKey)
        ensures
            r@ == self@,
    {
        ConfiguredTargetKey {
            package: self.package.clone(),
            name: self.name.clone(),
            canonical: copy_bytes(self.canonical.as_slice()),
        }
    }
}

/// The label of a target: two slashes, the package, a colon and the name.
pub open spec fn target_label(k: ConfiguredTargetKeyView) -> Seq<char> {
    "//"@ + k.package + ":"@ + k.name
}

/// Appends the label of a target.
pub fn append_label(out: &mut String, k: &ConfiguredTargetKey)
    ensures
        final(out)@ == old(out)@ + target_label(k@),
{
    out.append("//");
    out.append(k.package.as_str());
    out.append(":");
    out.append(k.name.as_str());
    assert(out@ =~= old(out)@ + target_label(k@));
}

/// One action as analysis declared it: its inputs and outputs are paths.
#[derive(PartialEq, Eq, Debug)]
pub struct ActionTemplate {
    pub mnemonic: String,
    pub argv: Vec<String>,
    pub env: Vec<(String, String)>,
    pub inputs: Vec<String>,
    pub outputs: Vec<String>,
}

/// What an [`ActionTemplate`] stands for.
pub struct ActionTemplateView {
    pub mnemonic: Seq<char>,
    pub argv: Seq<Seq<char>>,
    pub env: Seq<(Seq<char>, Seq<char>)>,
    pub inputs: Seq<Seq<char>>,
    pub outputs: Seq<Seq<char>>,
}

impl View for ActionTemplate {
    type V = ActionTemplateView;

    open spec fn view(&self) -> ActionTemplateView {
        ActionTemplateView {
            mnemonic: self.mnemonic@,
            argv: text::texts(self.argv@),
            env: text::text_pairs(self.env@),
            inputs: text::texts(self.inputs@),
            outputs: text::texts(self.outputs@),
        }
    }
}

impl Clone for ActionTemplate {
    fn clone(&self) -> (r: ActionTemplate)
        ensures
            r@ == self@,
    {
        let mut env: Vec<(String, String)> = Vec::new();
        let n: usize = self.env.len();
        for i in 0..n
            invariant
                n == self.env@.len(),
                text::text_pairs(env@) == text::text_pairs(self.env@).take(i as int),
        {
            let ghost before = text::text_pairs(env@);
            let entry = (self.env[i].0.clone(), self.env[i].1.clone());
            env.push(entry);
            assert(text::text_pairs(env@) =~= before.push(entry@));
            assert(text::text_pairs(self.env@)[i as int] == entry@);
            assert(before.push(entry@) =~= text::text_pairs(self.env@).take(i + 1));
        }
        assert(text::text_pairs(env@) =~= text::text_pairs(self.env@));
        ActionTemplate {
            mnemonic: self.mnemonic.clone(),
            argv: copy_texts(&self.argv),
            env,
            inputs: copy_texts(&self.inputs),
            outputs: copy_texts(&self.outputs),
        }
    }
}

/// An output of a direct dependency: which action of which target produces the path.
#[derive(PartialEq, Eq, Debug)]
pub struct DepOutput {
    pub exec_path: String,
    pub producer_ct: ConfiguredTargetKey,
    pub action_index: u32,
}

/// What a [`DepOutput`] stands for.
pub struct DepOutputView {
    pub exec_path: Seq<char>,
    pub producer_ct: ConfiguredTargetKeyView,
    pub action_index: u32,
}

impl View for DepOutput {
    type V = DepOutputView;

    open spec fn view(&self) -> DepOutputView {
        DepOutputView {
            exec_path: self.exec_path@,
            producer_ct: self.producer_ct@,
            action_index: self.action_index,
        }
    }
}

impl HasPath for DepOutputView {
    open spec fn path_of(self) -> Seq<char> {
        self.exec_path
    }
}

impl Pathed for DepOutput {
    fn path_text(&self) -> (r: &str) {
        self.exec_path.as_str()
    }
}

/// An analysed target: its actions in the order of their declaration, and the outputs of its direct
/// dependencies.
#[derive(PartialEq, Eq, Debug)]
pub struct ConfiguredTarget {
    pub actions: Vec<ActionTemplate>,
    pub dep_outputs: Vec<DepOutput>,
}

/// What a [`ConfiguredTarget`] stands for.
pub struct ConfiguredTargetView {
    pub actions: Seq<ActionTemplateView>,
    pub dep_outputs: Seq<DepOutputView>,
}

impl View for ConfiguredTarget {
    type V = ConfiguredTargetView;

    open spec fn view(&self) -> ConfiguredTargetView {
        ConfiguredTargetView {
            actions: order::views(self.actions@),
            dep_outputs: order::views(self.dep_outputs@),
        }
    }
}

/// A target key, a template, an output of a dependency and a target are seen as what their fields hold.
pub proof fn law_targets_are_their_fields(
    k: ConfiguredTargetKey,
    t: ActionTemplate,
    d: DepOutput,
    ct: ConfiguredTarget,
)
    ensures
        k@.package == k.package@ && k@.name == k.name@ && k@.canonical == k.canonical@,
        t@.mnemonic == t.mnemonic@,
        t@.argv.len() == t.argv@.len() && t@.env.len() == t.env@.len(),
        t@.inputs.len() == t.inputs@.len() && t@.outputs.len() == t.outputs@.len(),
        forall|i: int| 0 <= i < t.argv@.len() ==> #[trigger] t@.argv[i] == t.argv@[i]@,
        forall|i: int|
            0 <= i < t.env@.len() ==> #[trigger] t@.env[i] == (t.env@[i].0@, t.env@[i].1@),
        forall|i: int| 0 <= i < t.inputs@.len() ==> #[trigger] t@.inputs[i] == t.inputs@[i]@,
        forall|i: int| 0 <= i < t.outputs@.len() ==> #[trigger] t@.outputs[i] == t.outputs@[i]@,
        d@.exec_path == d.exec_path@ && d@.producer_ct == d.producer_ct@,
        d@.action_index == d.action_index && d@.path_of() == d.exec_path@,
        ct@.actions.len() == ct.actions@.len() && ct@.dep_outputs.len() == ct.dep_outputs@.len(),
        forall|i: int| 0 <= i < ct.actions@.len() ==> #[trigger] ct@.actions[i] == ct.actions@[i]@,
        forall|i: int|
            0 <= i < ct.dep_outputs@.len() ==> #[trigger] ct@.dep_outputs[i] == ct.dep_outputs@[i]@,
{
}

/// A label names the package behind two slashes and the name behind a colon.
pub proof fn law_label_names_package_and_name(k: ConfiguredTargetKeyView)
    ensures
        target_label(k) == "//"@ + k.package + ":"@ + k.name,
{
}

} // verus!
