//! Grammar composition metadata: namespace groups and plugins for the parser,
//! the check of their display names, and the errors reported while composing
//! a grammar.
use crate::scopes::{first_repeated_name, ScopedName};
use crate::shared::{same_instance, share};
use crate::text::str_eq;
use std::sync::Arc;
use vstd::prelude::*;
use vstd::string::StringExecFns;

verus! {

broadcast use vstd::seq::group_seq_axioms;

struct GroupNode {
    parent: Option<PluginGroup>,
}

/// A namespace symbol. Names are optional labels, never lookup keys: the
/// group's identity is its node, shared by clones and kept when relabelled.
pub struct PluginGroup {
    node: Arc<GroupNode>,
    label: Option<String>,
}

/// `Arc::new` of a fresh group node; nothing is shared with other nodes.
fn new_node(parent: Option<PluginGroup>) -> (r: Arc<GroupNode>)
    ensures
        r.parent == parent,
{
    Arc::new(GroupNode { parent })
}

/// The label shown for a group: its name, or `<anonymous group>`.
pub open spec fn group_label(label: Option<Seq<char>>) -> Seq<char> {
    match label {
        Some(l) => l,
        None => "<anonymous group>"@,
    }
}

impl PluginGroup {
    /// The group's label, if it has one.
    pub closed spec fn spec_name(self) -> Option<Seq<char>> {
        match self.label {
            Some(l) => Some(l@),
            None => None,
        }
    }

    /// The enclosing group, if any.
    pub closed spec fn spec_parent(self) -> Option<PluginGroup> {
        self.node.parent
    }

    /// Labels from the outermost group down to this one, joined with `/`;
    /// unlabelled groups show as `<anonymous group>`.
    pub closed spec fn spec_description(self) -> Seq<char>
        decreases self,
    {
        match self.node.parent {
            None => group_label(self.spec_name()),
            Some(p) => p.spec_description() + "/"@ + group_label(self.spec_name()),
        }
    }

    /// A group's description is its parent's description, a `/` and its
    /// label, or just its label at the root.
    pub proof fn lemma_description(self)
        ensures
            self.spec_description() == match self.spec_parent() {
                None => group_label(self.spec_name()),
                Some(p) => p.spec_description() + "/"@ + group_label(self.spec_name()),
            },
    {
    }

    /// The same group, labelled `name`.
    pub fn named(self, name: &str) -> (r: Self)
        ensures
            r.spec_name() == Some(name@),
            r.spec_parent() == self.spec_parent(),
    {
        PluginGroup { node: self.node, label: Some(name.to_owned()) }
    }

    /// The group's label, if it has one.
    pub fn name(&self) -> (r: Option<&str>)
        ensures
            r matches Some(n) ==> self.spec_name() == Some(n@),
            r is None ==> self.spec_name() is None,
    {
        match &self.label {
            Some(l) => Some(l.as_str()),
            None => None,
        }
    }

    /// The enclosing group, if any.
    pub fn parent(&self) -> (r: Option<&Self>)
        ensures
            r matches Some(p) ==> self.spec_parent() == Some(*p),
            r is None ==> self.spec_parent() is None,
    {
        match &self.node.parent {
            Some(p) => Some(p),
            None => None,
        }
    }

    /// A new, unlabelled group nested in this one.
    pub fn group(&self) -> (r: Self)
        ensures
            r.spec_parent() == Some(*self),
            r.spec_name() is None,
    {
        PluginGroup { node: new_node(Some(self.clone())), label: None }
    }

    /// Whether both handles share one group node. Shared nodes have the same
    /// parent.
    pub fn same(&self, other: &Self) -> (r: bool)
        ensures
            r ==> self.spec_parent() == other.spec_parent(),
    {
        same_instance(&self.node, &other.node)
    }

    /// Labels from the outermost group down to this one, joined with `/`.
    pub fn description(&self) -> (r: String)
        ensures
            r@ == self.spec_description(),
        decreases self,
    {
        let mut out = match self.parent() {
            None => String::new(),
            Some(p) => {
                let mut d = p.description();
                proof {
                    reveal_strlit("/");
                }
                d.append("/");
                d
            },
        };
        proof {
            reveal_strlit("<anonymous group>");
        }
        match self.name() {
            Some(n) => out.append(n),
            None => out.append("<anonymous group>"),
        }
        out
    }
}

impl PluginGroup {
    /// How many groups enclose this one, itself included.
    pub closed spec fn depth(self) -> nat
        decreases self,
    {
        match self.node.parent {
            None => 1,
            Some(p) => p.depth() + 1,
        }
    }

    /// A parent is one level shallower than its child.
    pub proof fn lemma_depth(self)
        ensures
            self.depth() >= 1,
            self.spec_parent() matches Some(p) ==> p.depth() + 1 == self.depth(),
        decreases self,
    {
        if let Some(p) = self.node.parent {
            p.lemma_depth();
        }
    }

    /// A new, unlabelled plugin in this group, with no rules.
    pub fn new(&self) -> (r: Plugin)
        ensures
            r.spec_rules() == Seq::<Contribution>::empty(),
            r.spec_name() is None,
            r.spec_namespace() == Some(*self),
    {
        Plugin { rules: Arc::new(Vec::new()), label: None, group: Some(self.clone()) }
    }
}

/// The depth of an optional group; 0 without one.
pub open spec fn opt_depth(g: Option<PluginGroup>) -> nat {
    match g {
        None => 0,
        Some(g) => g.depth(),
    }
}

/// `a` is `start` or one of its enclosing groups.
pub open spec fn in_chain(a: PluginGroup, start: Option<PluginGroup>) -> bool
    decreases start,
{
    match start {
        None => false,
        Some(g) => g == a || in_chain(a, g.spec_parent()),
    }
}

proof fn lemma_in_chain_parent(c: PluginGroup, start: Option<PluginGroup>)
    requires
        in_chain(c, start),
    ensures
        c.spec_parent() matches Some(q) ==> in_chain(q, start),
    decreases start,
{
    match start {
        None => {},
        Some(g) => {
            if g != c {
                lemma_in_chain_parent(c, g.spec_parent());
            } else {
                if let Some(q) = c.spec_parent() {
                    assert(in_chain(q, g.spec_parent())) by {
                        reveal_with_fuel(in_chain, 2);
                    }
                }
            }
        },
    }
}

impl Clone for PluginGroup {
    /// Another handle to the same group node with the same label.
    fn clone(&self) -> (r: Self)
        ensures
            r == *self,
    {
        PluginGroup {
            node: share(&self.node),
            label: match &self.label {
                Some(l) => Some(l.clone()),
                None => None,
            },
        }
    }
}

impl Default for PluginGroup {
    /// A new, unlabelled group outside any other group.
    fn default() -> (r: Self)
        ensures
            r.spec_parent() is None,
            r.spec_name() is None,
    {
        PluginGroup { node: new_node(None), label: None }
    }
}

/// Errors reported while composing or compiling a grammar.
#[derive(Debug, Clone, PartialEq, Eq)]
pub enum BuildError {
    /// The same plugin, rule or extension was added twice.
    Duplicate { element: String },
    /// A plugin or rule to remove or order was not found.
    Missing { element: String },
    /// Two selected declarations share a display name under one parent.
    DuplicateName { scope: String, name: String },
    /// A definition could not be compiled.
    InvalidDefinition { reason: String },
}

/// Two optional parents are the same: both absent, or one shared group node.
pub fn same_parent(a: Option<&PluginGroup>, b: Option<&PluginGroup>) -> (r: bool)
    ensures
        r && a is None ==> b is None,
        r && b is None ==> a is None,
        (a is None && b is None) ==> r,
        r && a is Some ==> a.unwrap().spec_parent() == b.unwrap().spec_parent(),
{
    match (a, b) {
        (Some(a), Some(b)) => a.same(b),
        (None, None) => true,
        _ => false,
    }
}

/// The name collision error for `name` in `scope`.
pub fn duplicate(scope: String, name: &str) -> (r: BuildError)
    ensures
        r matches BuildError::DuplicateName { scope: s, name: n } && s == scope && n@ == name@,
{
    BuildError::DuplicateName { scope, name: name.to_owned() }
}

/// The phase of parsing a rule takes part in.
#[derive(Debug, Clone, Copy, PartialEq, Eq, Structural)]
pub enum Phase {
    Inline,
    Block,
    Text,
}

/// The phase's name as it appears in descriptions.
pub open spec fn phase_text(phase: Phase) -> Seq<char> {
    match phase {
        Phase::Inline => "inline"@,
        Phase::Block => "block"@,
        Phase::Text => "text"@,
    }
}

impl Phase {
    /// The phase's name: `inline`, `block` or `text`.
    pub fn as_str(&self) -> (r: &'static str)
        ensures
            r@ == phase_text(*self),
    {
        match self {
            Phase::Inline => {
                proof {
                    reveal_strlit("inline");
                }
                "inline"
            },
            Phase::Block => {
                proof {
                    reveal_strlit("block");
                }
                "block"
            },
            Phase::Text => {
                proof {
                    reveal_strlit("text");
                }
                "text"
            },
        }
    }
}

/// What a rule holds besides its phase: its optional name and, for an inline
/// rule, the bytes it may start at (none: every byte).
struct RuleData {
    name: Option<String>,
    markers: Vec<u8>,
}

/// A rule contributed by a plugin, as grammar composition sees it: the phase
/// it runs in, its optional name and an inline rule's markers. Clones share
/// the rule's data, which is the rule's identity.
pub struct Contribution {
    phase: Phase,
    data: Arc<RuleData>,
}

/// An optional string's characters.
pub open spec fn opt_text(s: Option<String>) -> Option<Seq<char>> {
    match s {
        Some(v) => Some(v@),
        None => None,
    }
}

/// An optional string slice's characters.
pub open spec fn opt_text_ref(s: Option<&str>) -> Option<Seq<char>> {
    match s {
        Some(v) => Some(v@),
        None => None,
    }
}

/// The label shown for a rule: its name, or `<anonymous rule>`.
pub open spec fn rule_label(label: Option<Seq<char>>) -> Seq<char> {
    match label {
        Some(l) => l,
        None => "<anonymous rule>"@,
    }
}

/// An owned copy of an optional name.
fn own_name(name: Option<&str>) -> (r: Option<String>)
    ensures
        opt_text(r) == opt_text_ref(name),
{
    match name {
        Some(n) => Some(n.to_owned()),
        None => None,
    }
}

impl Contribution {
    /// The rule's phase.
    pub closed spec fn spec_phase(self) -> Phase {
        self.phase
    }

    /// The rule's name, if it has one.
    pub closed spec fn spec_name(self) -> Option<Seq<char>> {
        opt_text(self.data.name)
    }

    /// The bytes an inline rule may start at; none means every byte.
    pub closed spec fn spec_markers(self) -> Seq<u8> {
        self.data.markers@
    }

    /// A new rule of `phase`, named `name` if given, with no markers.
    pub fn new(phase: Phase, name: Option<&str>) -> (r: Self)
        ensures
            r.spec_phase() == phase,
            r.spec_name() == opt_text_ref(name),
            r.spec_markers().len() == 0,
    {
        Contribution { phase, data: Arc::new(RuleData { name: own_name(name), markers: Vec::new() }) }
    }

    /// A new inline rule tried at the bytes `markers` (at every byte when
    /// there are none), named `name` if given.
    pub fn inline(markers: &[u8], name: Option<&str>) -> (r: Self)
        ensures
            r.spec_phase() == Phase::Inline,
            r.spec_name() == opt_text_ref(name),
            r.spec_markers() == markers@,
    {
        let mut copy: Vec<u8> = Vec::new();
        let mut k: usize = 0;
        while k < markers.len()
            invariant
                0 <= k <= markers@.len(),
                copy@ == markers@.take(k as int),
            decreases markers@.len() - k,
        {
            copy.push(markers[k]);
            proof {
                assert(markers@.take(k + 1) =~= markers@.take(k as int).push(markers@[k as int]));
            }
            k += 1;
        }
        proof {
            assert(markers@.take(markers@.len() as int) =~= markers@);
        }
        Contribution { phase: Phase::Inline, data: Arc::new(RuleData { name: own_name(name), markers: copy }) }
    }

    /// The rule's name, if it has one.
    pub fn name(&self) -> (r: Option<&str>)
        ensures
            opt_text_ref(r) == self.spec_name(),
    {
        match &self.data.name {
            Some(n) => Some(n.as_str()),
            None => None,
        }
    }

    /// The bytes an inline rule may start at.
    pub fn markers(&self) -> (r: &[u8])
        ensures
            r@ == self.spec_markers(),
    {
        self.data.markers.as_slice()
    }

    /// The rule's phase name: `inline`, `block` or `text`.
    pub fn phase(&self) -> (r: &'static str)
        ensures
            r@ == phase_text(self.spec_phase()),
    {
        self.phase.as_str()
    }

    /// The phase the rule runs in.
    pub fn phase_value(&self) -> (r: Phase)
        ensures
            r == self.spec_phase(),
    {
        self.phase
    }

    /// Whether both are one rule: the same phase and shared data. One rule
    /// is equal to itself.
    pub fn same(&self, other: &Self) -> (r: bool)
        ensures
            r ==> *self == *other,
    {
        self.phase == other.phase && same_instance(&self.data, &other.data)
    }

    /// The rule's name, or `<anonymous rule>`.
    pub fn description(&self) -> (r: String)
        ensures
            r@ == rule_label(self.spec_name()),
    {
        proof {
            reveal_strlit("<anonymous rule>");
        }
        match &self.data.name {
            Some(n) => n.clone(),
            None => "<anonymous rule>".to_string(),
        }
    }
}

impl Clone for Contribution {
    /// Another handle to the same rule.
    fn clone(&self) -> (r: Self)
        ensures
            r == *self,
    {
        Contribution { phase: self.phase, data: share(&self.data) }
    }
}

/// A plugin definition shared by builders: its rules, an optional label and
/// an optional group. Clones share the rule list, which is the plugin's
/// identity; adding a rule gives the plugin a list of its own.
pub struct Plugin {
    rules: Arc<Vec<Contribution>>,
    label: Option<String>,
    group: Option<PluginGroup>,
}

/// The label shown for a plugin: its name, or `<anonymous plugin>`.
pub open spec fn plugin_label(label: Option<Seq<char>>) -> Seq<char> {
    match label {
        Some(l) => l,
        None => "<anonymous plugin>"@,
    }
}

/// The rules of `rules` that run in `phase`, in order.
pub open spec fn rules_in(rules: Seq<Contribution>, phase: Phase) -> Seq<Contribution>
    decreases rules.len(),
{
    if rules.len() == 0 {
        seq![]
    } else if rules.last().spec_phase() == phase {
        rules_in(rules.drop_last(), phase).push(rules.last())
    } else {
        rules_in(rules.drop_last(), phase)
    }
}

/// Copies of the rules, with the same phases and names.
fn copy_rules(rules: &Vec<Contribution>) -> (r: Vec<Contribution>)
    ensures
        r@ == rules@,
{
    let mut out: Vec<Contribution> = Vec::new();
    let mut k: usize = 0;
    while k < rules.len()
        invariant
            0 <= k <= rules@.len(),
            out@ == rules@.take(k as int),
        decreases rules@.len() - k,
    {
        out.push(rules[k].clone());
        proof {
            assert(rules@.take(k + 1) =~= rules@.take(k as int).push(rules@[k as int]));
        }
        k += 1;
    }
    proof {
        assert(rules@.take(rules@.len() as int) =~= rules@);
    }
    out
}

impl Plugin {
    /// The plugin's rules, in the order they were added.
    pub closed spec fn spec_rules(self) -> Seq<Contribution> {
        self.rules@
    }

    /// The plugin's label, if it has one.
    pub closed spec fn spec_name(self) -> Option<Seq<char>> {
        opt_text(self.label)
    }

    /// The plugin's group, if it has one.
    pub closed spec fn spec_namespace(self) -> Option<PluginGroup> {
        self.group
    }

    /// The plugin's label after its group's description and a `/`.
    pub open spec fn spec_description(self) -> Seq<char> {
        match self.spec_namespace() {
            None => plugin_label(self.spec_name()),
            Some(g) => g.spec_description() + "/"@ + plugin_label(self.spec_name()),
        }
    }

    /// A new, unlabelled plugin outside any group, with no rules.
    pub fn new() -> (r: Self)
        ensures
            r.spec_rules() == Seq::<Contribution>::empty(),
            r.spec_name() is None,
            r.spec_namespace() is None,
    {
        Plugin { rules: Arc::new(Vec::new()), label: None, group: None }
    }

    /// The same plugin, labelled `name`.
    pub fn named(self, name: &str) -> (r: Self)
        ensures
            r.spec_rules() == self.spec_rules(),
            r.spec_name() == Some(name@),
            r.spec_namespace() == self.spec_namespace(),
    {
        Plugin { rules: self.rules, label: Some(name.to_owned()), group: self.group }
    }

    /// A new, unlabelled group outside any other group.
    pub fn group() -> (r: PluginGroup)
        ensures
            r.spec_parent() is None,
            r.spec_name() is None,
    {
        PluginGroup::default()
    }

    /// The plugin's label, if it has one.
    pub fn name(&self) -> (r: Option<&str>)
        ensures
            r matches Some(n) ==> self.spec_name() == Some(n@),
            r is None ==> self.spec_name() is None,
    {
        match &self.label {
            Some(l) => Some(l.as_str()),
            None => None,
        }
    }

    /// The plugin's group, if it has one.
    pub fn namespace(&self) -> (r: Option<&PluginGroup>)
        ensures
            r matches Some(g) ==> self.spec_namespace() == Some(*g),
            r is None ==> self.spec_namespace() is None,
    {
        match &self.group {
            Some(g) => Some(g),
            None => None,
        }
    }

    /// Appends a rule. The plugin gets a rule list of its own, so clones made
    /// before keep theirs.
    pub fn add(&mut self, rule: Contribution) -> (r: &mut Self)
        ensures
            r.spec_rules() == old(self).spec_rules().push(rule),
            r.spec_name() == old(self).spec_name(),
            r.spec_namespace() == old(self).spec_namespace(),
            *final(self) == *final(r),
    {
        let mut rules = copy_rules(&self.rules);
        rules.push(rule);
        self.rules = Arc::new(rules);
        self
    }

    /// The plugin's rules, in the order they were added.
    pub fn rules(&self) -> (r: &Vec<Contribution>)
        ensures
            r@ == self.spec_rules(),
    {
        &self.rules
    }

    /// The plugin's rules that run in `phase`, in order.
    pub fn rules_of(&self, phase: Phase) -> (r: Vec<&Contribution>)
        ensures
            r@.map_values(|c: &Contribution| *c) == rules_in(self.spec_rules(), phase),
    {
        let mut out: Vec<&Contribution> = Vec::new();
        let mut k: usize = 0;
        while k < self.rules.len()
            invariant
                0 <= k <= self.rules@.len(),
                out@.map_values(|c: &Contribution| *c) == rules_in(self.rules@.take(k as int), phase),
            decreases self.rules@.len() - k,
        {
            let ghost before = out@;
            proof {
                assert(self.rules@.take(k + 1).drop_last() =~= self.rules@.take(k as int));
            }
            if self.rules[k].phase == phase {
                out.push(&self.rules[k]);
                proof {
                    assert(out@.map_values(|c: &Contribution| *c) =~= before.map_values(
                        |c: &Contribution| *c,
                    ).push(self.rules@[k as int]));
                }
            }
            k += 1;
        }
        proof {
            assert(self.rules@.take(self.rules@.len() as int) =~= self.rules@);
        }
        out
    }

    /// The plugin's inline rules, in order.
    pub fn inline_rules(&self) -> (r: Vec<&Contribution>)
        ensures
            r@.map_values(|c: &Contribution| *c) == rules_in(self.spec_rules(), Phase::Inline),
    {
        self.rules_of(Phase::Inline)
    }

    /// The plugin's block rules, in order.
    pub fn block_rules(&self) -> (r: Vec<&Contribution>)
        ensures
            r@.map_values(|c: &Contribution| *c) == rules_in(self.spec_rules(), Phase::Block),
    {
        self.rules_of(Phase::Block)
    }

    /// The plugin's text rules, in order.
    pub fn text_rules(&self) -> (r: Vec<&Contribution>)
        ensures
            r@.map_values(|c: &Contribution| *c) == rules_in(self.spec_rules(), Phase::Text),
    {
        self.rules_of(Phase::Text)
    }

    /// Whether both plugins share one rule list, which makes them one plugin.
    /// Shared lists hold the same rules.
    pub fn same(&self, other: &Self) -> (r: bool)
        ensures
            r ==> self.spec_rules() == other.spec_rules(),
    {
        same_instance(&self.rules, &other.rules)
    }

    /// The plugin's label after its group's description and a `/`; unlabelled
    /// plugins show as `<anonymous plugin>`.
    pub fn description(&self) -> (r: String)
        ensures
            r@ == self.spec_description(),
    {
        let mut out = match self.namespace() {
            None => String::new(),
            Some(g) => {
                let mut d = g.description();
                proof {
                    reveal_strlit("/");
                }
                d.append("/");
                d
            },
        };
        proof {
            reveal_strlit("<anonymous plugin>");
        }
        match self.name() {
            Some(n) => out.append(n),
            None => out.append("<anonymous plugin>"),
        }
        out
    }
}

impl Clone for Plugin {
    /// Another handle to the same plugin: the same rule list, label and group.
    fn clone(&self) -> (r: Self)
        ensures
            r == *self,
    {
        Plugin {
            rules: share(&self.rules),
            label: match &self.label {
                Some(l) => Some(l.clone()),
                None => None,
            },
            group: match &self.group {
                Some(g) => Some(g.clone()),
                None => None,
            },
        }
    }
}

impl Default for Plugin {
    /// A new, unlabelled plugin outside any group, with no rules.
    fn default() -> (r: Self)
        ensures
            r.spec_rules() == Seq::<Contribution>::empty(),
            r.spec_name() is None,
            r.spec_namespace() is None,
    {
        Plugin::new()
    }
}

/// Rule `j` has a name, and an earlier rule of the list has the same phase
/// and name.
pub open spec fn repeated_rule(rules: Seq<Contribution>, j: int) -> bool {
    &&& rules[j].spec_name() is Some
    &&& exists|i: int|
        0 <= i < j && (#[trigger] rules[i]).spec_phase() == rules[j].spec_phase()
            && rules[i].spec_name() == rules[j].spec_name()
}

/// Plugin `p` has no repeated rule before position `j`.
pub open spec fn no_repeat_before(plugins: Seq<Plugin>, p: int, j: int) -> bool {
    forall|i: int| 0 <= i < j ==> !#[trigger] repeated_rule(plugins[p].spec_rules(), i)
}

/// No plugin has a repeated rule.
pub open spec fn no_repeated_rules(plugins: Seq<Plugin>) -> bool {
    forall|p: int| 0 <= p < plugins.len() ==> #[trigger] no_repeat_before(
        plugins,
        p,
        plugins[p].spec_rules().len() as int,
    )
}

/// Rule `j` of plugin `p` is the first repeated rule: no earlier plugin has
/// one, and none comes before it in its own plugin.
pub open spec fn first_repeat(plugins: Seq<Plugin>, p: int, j: int) -> bool {
    &&& 0 <= p < plugins.len()
    &&& 0 <= j < plugins[p].spec_rules().len()
    &&& repeated_rule(plugins[p].spec_rules(), j)
    &&& no_repeat_before(plugins, p, j)
    &&& no_repeated_rules(plugins.take(p))
}

/// The scope text for a parent: `<root>` without one, else its description.
pub open spec fn scope_of(parent: Option<PluginGroup>) -> Seq<char> {
    match parent {
        None => "<root>"@,
        Some(g) => g.spec_description(),
    }
}

/// Some selected declaration, a plugin or a group enclosing one, has this
/// parent and this name.
pub open spec fn selected_name(plugins: Seq<Plugin>, parent: Option<PluginGroup>, name: Seq<char>) -> bool {
    exists|p: int|
        0 <= p < plugins.len() && {
            ||| (plugins[p].spec_namespace() == parent && plugins[p].spec_name() == Some(name))
            ||| exists|g: PluginGroup|
                in_chain(g, #[trigger] plugins[p].spec_namespace()) && g.spec_parent() == parent
                    && g.spec_name() == Some(name)
        }
}

/// `g` encloses a selected plugin.
pub open spec fn encloses_selected(g: PluginGroup, plugins: Seq<Plugin>) -> bool {
    exists|p: int| 0 <= p < plugins.len() && in_chain(g, #[trigger] plugins[p].spec_namespace())
}

/// No selected plugin is in a group.
pub open spec fn no_groups(plugins: Seq<Plugin>) -> bool {
    forall|p: int| 0 <= p < plugins.len() ==> (#[trigger] plugins[p]).spec_namespace() is None
}

/// Plugin `j` has a name, and an earlier plugin has the same name.
pub open spec fn repeats_plugin_name(plugins: Seq<Plugin>, j: int) -> bool {
    &&& plugins[j].spec_name() is Some
    &&& exists|i: int| 0 <= i < j && (#[trigger] plugins[i]).spec_name() == plugins[j].spec_name()
}

/// Some collected group shares `g`'s node as far as values show: it has
/// `g`'s enclosing group.
pub open spec fn node_held(groups: Seq<&PluginGroup>, g: PluginGroup) -> bool {
    exists|k: int| 0 <= k < groups.len() && (#[trigger] groups[k]).spec_parent() == g.spec_parent()
}

/// Every collected group's enclosing group is held too, except possibly one
/// equal to `pending`.
pub open spec fn nodes_held(groups: Seq<&PluginGroup>, pending: Option<PluginGroup>) -> bool {
    forall|k: int|
        0 <= k < groups.len() ==> ((#[trigger] groups[k]).spec_parent() matches Some(q) ==> node_held(
            groups,
            q,
        ) || pending == Some(q))
}

/// Every group enclosing one of the first `n` plugins is held.
pub open spec fn chains_held(groups: Seq<&PluginGroup>, plugins: Seq<Plugin>, n: int) -> bool {
    forall|p: int, g: PluginGroup|
        0 <= p < n && #[trigger] in_chain(g, plugins[p].spec_namespace()) ==> node_held(groups, g)
}

/// Groups enclosing a selected plugin that share `g`'s enclosing group
/// carry `g`'s label.
pub open spec fn labels_by_node(plugins: Seq<Plugin>, g: PluginGroup) -> bool {
    forall|h: PluginGroup|
        #[trigger] encloses_selected(h, plugins) && h.spec_parent() == g.spec_parent() ==> h.spec_name()
            == g.spec_name()
}

proof fn lemma_node_held_push(groups: Seq<&PluginGroup>, x: &PluginGroup, g: PluginGroup)
    requires
        node_held(groups, g),
    ensures
        node_held(groups.push(x), g),
{
    let k = choose|k: int| 0 <= k < groups.len() && (#[trigger] groups[k]).spec_parent() == g.spec_parent();
    assert(groups.push(x)[k] == groups[k]);
}

/// With every enclosing group held, the whole chain above a held group is held.
proof fn lemma_node_chain_held(groups: Seq<&PluginGroup>, g: PluginGroup, a: PluginGroup)
    requires
        nodes_held(groups, None),
        node_held(groups, g),
        in_chain(a, Some(g)),
    ensures
        node_held(groups, a),
    decreases g.depth(),
{
    if g != a {
        g.lemma_depth();
        assert(in_chain(a, g.spec_parent()));
        let k = choose|k: int| 0 <= k < groups.len() && (#[trigger] groups[k]).spec_parent() == g.spec_parent();
        match g.spec_parent() {
            Some(q) => {
                assert(groups[k].spec_parent() == Some(q));
                assert(node_held(groups, q));
                lemma_node_chain_held(groups, q, a);
            },
            None => {},
        }
    }
}

/// Whether `groups` holds `group`'s node.
fn contains_group(groups: &Vec<&PluginGroup>, group: &PluginGroup) -> (r: bool)
    ensures
        r ==> exists|k: int| 0 <= k < groups@.len() && groups@[k].spec_parent() == group.spec_parent(),
{
    let mut k: usize = 0;
    while k < groups.len()
        invariant
            0 <= k <= groups@.len(),
        decreases groups@.len() - k,
    {
        if groups[k].same(group) {
            return true;
        }
        k += 1;
    }
    false
}

/// The first rule of `rules` whose phase and name an earlier rule has, if any.
fn find_repeated_rule(rules: &Vec<Contribution>) -> (r: Option<usize>)
    ensures
        match r {
            Some(j) => j < rules@.len() && repeated_rule(rules@, j as int) && forall|i: int|
                0 <= i < j ==> !#[trigger] repeated_rule(rules@, i),
            None => forall|i: int| 0 <= i < rules@.len() ==> !#[trigger] repeated_rule(rules@, i),
        },
{
    let mut j: usize = 0;
    while j < rules.len()
        invariant
            0 <= j <= rules@.len(),
            forall|i: int| 0 <= i < j ==> !#[trigger] repeated_rule(rules@, i),
        decreases rules@.len() - j,
    {
        if let Some(name) = rules[j].name() {
            let mut i: usize = 0;
            while i < j
                invariant
                    0 <= i <= j < rules@.len(),
                    rules@[j as int].spec_name() == Some(name@),
                    forall|h: int| 0 <= h < j ==> !#[trigger] repeated_rule(rules@, h),
                    forall|h: int|
                        0 <= h < i ==> !((#[trigger] rules@[h]).spec_phase() == rules@[j as int].spec_phase()
                            && rules@[h].spec_name() == rules@[j as int].spec_name()),
                decreases j - i,
            {
                let same_name = match rules[i].name() {
                    Some(other) => str_eq(other, name),
                    None => false,
                };
                if rules[i].phase == rules[j].phase && same_name {
                    proof {
                        assert(rules@[i as int].spec_name() == rules@[j as int].spec_name());
                        assert(repeated_rule(rules@, j as int));
                    }
                    return Some(j);
                }
                i += 1;
            }
        }
        j += 1;
    }
    None
}

/// The number of `parent`'s scope: `None` for the root, else the position of
/// its group node in `scopes`, which is added at the end if not yet there.
fn scope_id<'a>(scopes: &mut Vec<&'a PluginGroup>, parent: Option<&'a PluginGroup>) -> (r: Option<usize>)
    ensures
        r is None <==> parent is None,
        final(scopes)@.len() >= old(scopes)@.len(),
        r matches Some(k) ==> k < final(scopes)@.len() && final(scopes)@[k as int].spec_parent()
            == parent.unwrap().spec_parent(),
        forall|k: int| 0 <= k < old(scopes)@.len() ==> #[trigger] final(scopes)@[k] == old(scopes)@[k],
{
    match parent {
        None => None,
        Some(g) => {
            let mut k: usize = 0;
            while k < scopes.len()
                invariant
                    0 <= k <= scopes@.len(),
                    parent == Some(g),
                    scopes@ == old(scopes)@,
                decreases scopes@.len() - k,
            {
                if scopes[k].same(g) {
                    return Some(k);
                }
                k += 1;
            }
            scopes.push(g);
            Some(scopes.len() - 1)
        },
    }
}

/// The group a reference points to, if any.
pub open spec fn opt_group(p: Option<&PluginGroup>) -> Option<PluginGroup> {
    match p {
        Some(g) => Some(*g),
        None => None,
    }
}

/// The parent of the group a reference points to, when there is a group.
pub open spec fn opt_grandparent(p: Option<&PluginGroup>) -> Option<Option<PluginGroup>> {
    match p {
        Some(g) => Some(g.spec_parent()),
        None => None,
    }
}

/// Two parents are alike as far as values show: both absent, or groups whose
/// nodes hold the same enclosing group. One shared node makes them alike.
pub open spec fn alike(a: Option<PluginGroup>, b: Option<PluginGroup>) -> bool {
    match (a, b) {
        (None, None) => true,
        (Some(x), Some(y)) => x.spec_parent() == y.spec_parent(),
        _ => false,
    }
}

/// Two selected declarations carry the name `name` under parents alike to
/// `parent`: two plugins, a group enclosing a selected plugin and a plugin,
/// or two instances of enclosing groups (which may be equal in value, so
/// that the last case shows only one such group).
pub open spec fn shared_entry(plugins: Seq<Plugin>, parent: Option<PluginGroup>, name: Seq<char>) -> bool {
    ||| exists|i: int, j: int|
        0 <= i < j < plugins.len() && alike((#[trigger] plugins[i]).spec_namespace(), parent)
            && (#[trigger] plugins[j]).spec_namespace() == parent && plugins[i].spec_name() == Some(name)
            && plugins[j].spec_name() == Some(name)
    ||| exists|p: int, g: PluginGroup|
        0 <= p < plugins.len() && #[trigger] encloses_selected(g, plugins) && alike(g.spec_parent(), parent)
            && g.spec_name() == Some(name) && (#[trigger] plugins[p]).spec_namespace() == parent
            && plugins[p].spec_name() == Some(name)
    ||| exists|g: PluginGroup|
        #[trigger] encloses_selected(g, plugins) && g.spec_parent() == parent && g.spec_name() == Some(name)
}

/// What the name check knows of its entries: the groups first, then the
/// plugins, each as its parent and its optional name.
spec fn entries_of(
    plugins: Seq<Plugin>,
    groups: Seq<&PluginGroup>,
    parents: Seq<Option<&PluginGroup>>,
    names: Seq<Option<&str>>,
    entries: Seq<ScopedName>,
) -> bool {
    &&& parents.len() == names.len()
    &&& names.len() == groups.len() + plugins.len()
    &&& entries.len() == names.len()
    &&& forall|k: int| 0 <= k < groups.len() ==> encloses_selected(*#[trigger] groups[k], plugins)
    &&& forall|e: int|
        0 <= e < groups.len() ==> opt_text_ref(#[trigger] names[e]) == groups[e].spec_name() && opt_group(
            parents[e],
        ) == groups[e].spec_parent()
    &&& forall|e: int|
        0 <= e < plugins.len() ==> opt_text_ref(#[trigger] names[groups.len() + e]) == plugins[e].spec_name()
            && opt_group(parents[groups.len() + e]) == plugins[e].spec_namespace()
    &&& forall|i: int| 0 <= i < entries.len() ==> (#[trigger] entries[i]).1 == names[i]
    &&& forall|i: int| 0 <= i < entries.len() ==> ((#[trigger] entries[i]).0 is None <==> parents[i] is None)
}

/// A reported repeat is a name that two selected declarations share under
/// alike parents.
proof fn lemma_shared_reported(
    plugins: Seq<Plugin>,
    groups: Seq<&PluginGroup>,
    parents: Seq<Option<&PluginGroup>>,
    names: Seq<Option<&str>>,
    entries: Seq<ScopedName>,
    scopes: Seq<&PluginGroup>,
    j: int,
)
    requires
        entries_of(plugins, groups, parents, names, entries),
        forall|i: int|
            0 <= i < entries.len() ==> ((#[trigger] entries[i]).0 matches Some(k) ==> k < scopes.len()
                && Some(scopes[k as int].spec_parent()) == opt_grandparent(parents[i])),
        0 <= j < entries.len(),
        crate::scopes::repeats_earlier(entries, j),
    ensures
        names[j] is Some,
        shared_entry(plugins, opt_group(parents[j]), names[j].unwrap()@),
{
    let i = choose|i: int|
        0 <= i < j && (#[trigger] entries[i]).0 == entries[j].0 && entries[i].1 is Some
            && entries[i].1.unwrap()@ == entries[j].1.unwrap()@;
    let gl = groups.len() as int;
    let par = opt_group(parents[j]);
    let name = names[j].unwrap()@;
    assert(entries[i].1 == names[i]);
    assert(entries[j].1 == names[j]);
    assert(opt_text_ref(names[i]) == Some(name));
    assert(opt_text_ref(names[j]) == Some(name));
    assert(alike(opt_group(parents[i]), par)) by {
        if entries[j].0 is None {
            assert(parents[j] is None);
            assert(parents[i] is None);
        } else {
            let k = entries[j].0.unwrap();
            assert(entries[i].0 == Some(k));
            assert(Some(scopes[k as int].spec_parent()) == opt_grandparent(parents[i]));
            assert(Some(scopes[k as int].spec_parent()) == opt_grandparent(parents[j]));
        }
    }
    if j < gl {
        let g = *groups[j];
        assert(opt_text_ref(names[j]) == groups[j].spec_name());
        assert(encloses_selected(g, plugins));
    } else if i < gl {
        let p = j - gl;
        let g = *groups[i];
        assert(opt_text_ref(names[gl + p]) == plugins[p].spec_name());
        assert(opt_text_ref(names[i]) == groups[i].spec_name());
        assert(encloses_selected(g, plugins));
        assert(plugins[p].spec_namespace() == par);
    } else {
        let a = i - gl;
        let b = j - gl;
        assert(opt_text_ref(names[gl + a]) == plugins[a].spec_name());
        assert(opt_text_ref(names[gl + b]) == plugins[b].spec_name());
        assert(plugins[b].spec_namespace() == par);
    }
}

/// Without repeats, no two named root-level plugins share a name.
proof fn lemma_root_names_differ(
    plugins: Seq<Plugin>,
    groups: Seq<&PluginGroup>,
    parents: Seq<Option<&PluginGroup>>,
    names: Seq<Option<&str>>,
    entries: Seq<ScopedName>,
)
    requires
        entries_of(plugins, groups, parents, names, entries),
        forall|i: int| 0 <= i < entries.len() ==> !#[trigger] crate::scopes::repeats_earlier(entries, i),
    ensures
        forall|i: int, j: int|
            0 <= i < j < plugins.len() && (#[trigger] plugins[i]).spec_namespace() is None
                && (#[trigger] plugins[j]).spec_namespace() is None && plugins[j].spec_name() is Some
                ==> plugins[i].spec_name() != plugins[j].spec_name(),
{
    let gl = groups.len() as int;
    assert forall|i: int, j: int|
        0 <= i < j < plugins.len() && (#[trigger] plugins[i]).spec_namespace() is None
            && (#[trigger] plugins[j]).spec_namespace() is None && plugins[j].spec_name() is Some
            implies plugins[i].spec_name() != plugins[j].spec_name() by {
        assert(opt_text_ref(names[gl + i]) == plugins[i].spec_name());
        assert(opt_text_ref(names[gl + j]) == plugins[j].spec_name());
        assert(opt_group(parents[gl + i]) is None);
        assert(opt_group(parents[gl + j]) is None);
        assert(entries[gl + i].0 is None);
        assert(entries[gl + j].0 is None);
        assert(entries[gl + i].1 == names[gl + i]);
        assert(entries[gl + j].1 == names[gl + j]);
        if plugins[i].spec_name() == plugins[j].spec_name() {
            assert(crate::scopes::repeats_earlier(entries, gl + j));
        }
    }
}

/// Checks the selected plugins: no plugin has two rules with one name in one
/// phase, and no two selected declarations (the plugins and the groups that
/// enclose them) share a name under one parent group. Only groups reached
/// through the selected plugins take part; unnamed declarations never
/// collide.
pub fn validate(plugins: &[Plugin]) -> (r: Result<(), BuildError>)
    ensures
        r matches Err(e) ==> e is DuplicateName,
        forall|p: int, j: int| #[trigger] first_repeat(plugins@, p, j) ==> (r matches Err(
            BuildError::DuplicateName { scope, name },
        ) && scope@ == plugins@[p].spec_description() + " / "@ + phase_text(
            plugins@[p].spec_rules()[j].spec_phase(),
        ) && plugins@[p].spec_rules()[j].spec_name() == Some(name@)),
        no_repeated_rules(plugins@) ==> (r is Ok || (r matches Err(
            BuildError::DuplicateName { scope, name },
        ) && exists|parent: Option<PluginGroup>|
            selected_name(plugins@, parent, name@) && scope@ == scope_of(parent))),
        no_repeated_rules(plugins@) ==> (r matches Err(BuildError::DuplicateName { scope, name })
            ==> exists|parent: Option<PluginGroup>|
            shared_entry(plugins@, parent, name@) && scope@ == scope_of(parent)),
        r is Ok ==> forall|p: int, g: PluginGroup|
            0 <= p < plugins@.len() && (#[trigger] plugins@[p]).spec_namespace() is None
                && plugins@[p].spec_name() is Some && #[trigger] encloses_selected(g, plugins@)
                && g.spec_parent() is None && labels_by_node(plugins@, g) ==> g.spec_name()
                != plugins@[p].spec_name(),
        r is Ok ==> forall|i: int, j: int|
            0 <= i < j < plugins@.len() && (#[trigger] plugins@[i]).spec_namespace() is None
                && (#[trigger] plugins@[j]).spec_namespace() is None && plugins@[j].spec_name() is Some
                ==> plugins@[i].spec_name() != plugins@[j].spec_name(),
        no_repeated_rules(plugins@) && no_groups(plugins@) ==> match r {
            Ok(()) => forall|j: int| 0 <= j < plugins@.len() ==> !#[trigger] repeats_plugin_name(plugins@, j),
            Err(e) => exists|j: int|
                {
                    &&& 0 <= j < plugins@.len()
                    &&& #[trigger] repeats_plugin_name(plugins@, j)
                    &&& forall|i: int| 0 <= i < j ==> !repeats_plugin_name(plugins@, i)
                    &&& e matches BuildError::DuplicateName { scope, name }
                    &&& plugins@[j].spec_name() == Some(name@)
                    &&& scope@ == scope_of(None)
                },
        },
{
    let mut groups: Vec<&PluginGroup> = Vec::new();
    let mut k: usize = 0;
    while k < plugins.len()
        invariant
            0 <= k <= plugins@.len(),
            no_repeated_rules(plugins@.take(k as int)),
            forall|g: int| 0 <= g < groups@.len() ==> encloses_selected(*#[trigger] groups@[g], plugins@),
            no_groups(plugins@) ==> groups@.len() == 0,
            nodes_held(groups@, None),
            chains_held(groups@, plugins@, k as int),
        decreases plugins@.len() - k,
    {
        let plugin = &plugins[k];
        let mut current = plugin.namespace();
        loop
            invariant
                0 <= k < plugins@.len(),
                plugin == plugins@[k as int],
                current matches Some(c) ==> in_chain(*c, plugin.spec_namespace()),
                forall|g: int| 0 <= g < groups@.len() ==> encloses_selected(*#[trigger] groups@[g], plugins@),
                no_groups(plugins@) ==> groups@.len() == 0 && current is None,
                nodes_held(groups@, match current { Some(c) => Some(*c), None => None }),
                chains_held(groups@, plugins@, k as int),
                forall|g: PluginGroup|
                    #[trigger] in_chain(g, plugin.spec_namespace()) && !in_chain(
                        g,
                        match current { Some(c) => Some(*c), None => None },
                    ) ==> node_held(groups@, g),
            ensures
                nodes_held(groups@, None),
                chains_held(groups@, plugins@, k + 1),
            decreases opt_depth(match current { Some(c) => Some(*c), None => None }),
        {
            match current {
                None => {
                    proof {
                        assert forall|p: int, g: PluginGroup|
                            0 <= p < k + 1 && #[trigger] in_chain(g, plugins@[p].spec_namespace()) implies node_held(
                            groups@,
                            g,
                        ) by {
                            if p == k {
                                assert(!in_chain(g, None));
                            }
                        }
                    }
                    break;
                },
                Some(group) => {
                    if contains_group(&groups, group) {
                        proof {
                            let gs = groups@;
                            assert(node_held(gs, *group));
                            assert forall|j: int| 0 <= j < gs.len() implies ((#[trigger] gs[j]).spec_parent()
                                matches Some(q) ==> node_held(gs, q) || None::<PluginGroup> == Some(q)) by {
                                if let Some(q) = gs[j].spec_parent() {
                                    if !node_held(gs, q) {
                                        assert(Some(*group) == Some(q));
                                    }
                                }
                            }
                            assert forall|p: int, g: PluginGroup|
                                0 <= p < k + 1 && #[trigger] in_chain(g, plugins@[p].spec_namespace()) implies node_held(
                                gs,
                                g,
                            ) by {
                                if p == k && in_chain(g, Some(*group)) {
                                    lemma_node_chain_held(gs, *group, g);
                                }
                            }
                        }
                        break;
                    }
                    let ghost before = groups@;
                    groups.push(group);
                    proof {
                        let gs = groups@;
                        let next = group.spec_parent();
                        assert(gs[gs.len() - 1] == group);
                        assert(node_held(gs, *group));
                        assert forall|g: PluginGroup| node_held(before, g) implies node_held(gs, g) by {
                            lemma_node_held_push(before, group, g);
                        }
                        assert forall|j: int| 0 <= j < gs.len() implies ((#[trigger] gs[j]).spec_parent()
                            matches Some(q) ==> node_held(gs, q) || next == Some(q)) by {
                            if j < before.len() {
                                assert(gs[j] == before[j]);
                            }
                        }
                        assert forall|g: PluginGroup|
                            #[trigger] in_chain(g, plugin.spec_namespace()) && !in_chain(g, next) implies node_held(
                            gs,
                            g,
                        ) by {
                            if !in_chain(g, Some(*group)) {
                                assert(node_held(before, g));
                            } else {
                                assert(g == *group);
                            }
                        }
                    }
                    proof {
                        group.lemma_depth();
                        lemma_in_chain_parent(*group, plugin.spec_namespace());
                        assert(in_chain(*groups@[groups@.len() - 1], plugins@[k as int].spec_namespace()));
                        assert(encloses_selected(*groups@[groups@.len() - 1], plugins@));
                    }
                    current = group.parent();
                },
            }
        }
        match find_repeated_rule(&plugin.rules) {
            Some(j) => {
                let rule = &plugin.rules[j];
                let mut scope = plugin.description();
                proof {
                    reveal_strlit(" / ");
                }
                scope.append(" / ");
                scope.append(rule.phase());
                let name = match rule.name() {
                    Some(n) => n,
                    None => "",
                };
                proof {
                    assert(first_repeat(plugins@, k as int, j as int));
                    assert(!no_repeat_before(plugins@, k as int, plugins@[k as int].spec_rules().len() as int));
                    assert(!no_repeated_rules(plugins@));
                    assert forall|p: int, i: int| #[trigger] first_repeat(plugins@, p, i) implies p
                        == k && i == j by {
                        if p < k {
                            assert(plugins@.take(k as int)[p] == plugins@[p]);
                            assert(no_repeat_before(plugins@.take(k as int), p, plugins@[p].spec_rules().len() as int));
                            assert(!repeated_rule(plugins@[p].spec_rules(), i));
                        } else if p > k {
                            assert(plugins@.take(p)[k as int] == plugins@[k as int]);
                            assert(no_repeat_before(plugins@.take(p), k as int, plugins@[k as int].spec_rules().len() as int));
                            assert(!repeated_rule(plugins@[k as int].spec_rules(), j as int));
                        } else {
                            if i < j {
                                assert(!repeated_rule(plugins@[p].spec_rules(), i));
                            } else if i > j {
                                assert(!repeated_rule(plugins@[p].spec_rules(), j as int));
                            }
                        }
                    }
                }
                return Err(duplicate(scope, name));
            },
            None => {
                proof {
                    let t = plugins@.take(k + 1);
                    assert forall|p: int| 0 <= p < t.len() implies #[trigger] no_repeat_before(
                        t,
                        p,
                        t[p].spec_rules().len() as int,
                    ) by {
                        if p < k {
                            assert(t[p] == plugins@.take(k as int)[p]);
                            assert(no_repeat_before(plugins@.take(k as int), p, t[p].spec_rules().len() as int));
                        }
                    }
                }
            },
        }
        k += 1;
    }
    proof {
        assert(plugins@.take(plugins@.len() as int) =~= plugins@);
        assert forall|p: int, j: int| !#[trigger] first_repeat(plugins@, p, j) by {
            if 0 <= p < plugins@.len() {
                assert(no_repeat_before(plugins@, p, plugins@[p].spec_rules().len() as int));
            }
        }
    }
    let mut parents: Vec<Option<&PluginGroup>> = Vec::new();
    let mut names: Vec<Option<&str>> = Vec::new();
    let mut k: usize = 0;
    while k < groups.len()
        invariant
            0 <= k <= groups@.len(),
            parents@.len() == names@.len(),
            chains_held(groups@, plugins@, plugins@.len() as int),
            forall|g: int| 0 <= g < groups@.len() ==> encloses_selected(*#[trigger] groups@[g], plugins@),
            names@.len() == k,
            forall|p: int, i: int| !#[trigger] first_repeat(plugins@, p, i),
            no_repeated_rules(plugins@),
            forall|g: int| 0 <= g < groups@.len() ==> encloses_selected(*#[trigger] groups@[g], plugins@),
            forall|e: int|
                0 <= e < k ==> opt_text_ref(#[trigger] names@[e]) == groups@[e].spec_name() && opt_group(
                    parents@[e],
                ) == groups@[e].spec_parent(),
            forall|e: int|
                0 <= e < names@.len() ==> (#[trigger] names@[e] matches Some(n) ==> selected_name(
                    plugins@,
                    match parents@[e] { Some(g) => Some(*g), None => None },
                    n@,
                )),
        decreases groups@.len() - k,
    {
        let g = groups[k];
        proof {
            assert(encloses_selected(*g, plugins@));
            let p = choose|p: int| 0 <= p < plugins@.len() && in_chain(*g, #[trigger] plugins@[p].spec_namespace());
            assert(in_chain(*g, plugins@[p].spec_namespace()));
        }
        parents.push(g.parent());
        names.push(g.name());
        k += 1;
    }
    let mut k: usize = 0;
    while k < plugins.len()
        invariant
            0 <= k <= plugins@.len(),
            parents@.len() == names@.len(),
            chains_held(groups@, plugins@, plugins@.len() as int),
            forall|g: int| 0 <= g < groups@.len() ==> encloses_selected(*#[trigger] groups@[g], plugins@),
            names@.len() == groups@.len() + k,
            no_groups(plugins@) ==> groups@.len() == 0,
            forall|e: int|
                0 <= e < k ==> opt_text_ref(#[trigger] names@[groups@.len() + e]) == plugins@[e].spec_name()
                    && parents@[groups@.len() + e] is None == plugins@[e].spec_namespace() is None
                    && opt_group(parents@[groups@.len() + e]) == plugins@[e].spec_namespace(),
            forall|g: int| 0 <= g < groups@.len() ==> encloses_selected(*#[trigger] groups@[g], plugins@),
            forall|e: int|
                0 <= e < groups@.len() ==> opt_text_ref(#[trigger] names@[e]) == groups@[e].spec_name()
                    && opt_group(parents@[e]) == groups@[e].spec_parent(),
            forall|p: int, i: int| !#[trigger] first_repeat(plugins@, p, i),
            no_repeated_rules(plugins@),
            forall|e: int|
                0 <= e < names@.len() ==> (#[trigger] names@[e] matches Some(n) ==> selected_name(
                    plugins@,
                    match parents@[e] { Some(g) => Some(*g), None => None },
                    n@,
                )),
        decreases plugins@.len() - k,
    {
        let p = &plugins[k];
        parents.push(p.namespace());
        names.push(p.name());
        k += 1;
    }
    let mut scopes: Vec<&PluginGroup> = Vec::new();
    let mut entries: Vec<ScopedName> = Vec::new();
    let mut e: usize = 0;
    while e < names.len()
        invariant
            0 <= e <= names@.len(),
            parents@.len() == names@.len(),
            chains_held(groups@, plugins@, plugins@.len() as int),
            forall|g: int| 0 <= g < groups@.len() ==> encloses_selected(*#[trigger] groups@[g], plugins@),
            entries@.len() == e,
            forall|i: int| 0 <= i < e ==> (#[trigger] entries@[i]).1 == names@[i],
            forall|i: int| 0 <= i < e ==> ((#[trigger] entries@[i]).0 is None <==> parents@[i] is None),
            forall|i: int|
                0 <= i < e ==> ((#[trigger] entries@[i]).0 matches Some(k) ==> k < scopes@.len() && Some(
                    scopes@[k as int].spec_parent(),
                ) == opt_grandparent(parents@[i])),
        decreases names@.len() - e,
    {
        let ghost before = scopes@;
        let id = scope_id(&mut scopes, parents[e]);
        proof {
            assert forall|i: int| 0 <= i < e implies ((#[trigger] entries@[i]).0 matches Some(k) ==> k
                < scopes@.len() && Some(scopes@[k as int].spec_parent()) == opt_grandparent(parents@[i])) by {
                if let Some(k) = entries@[i].0 {
                    assert(k < before.len() && Some(before[k as int].spec_parent()) == opt_grandparent(parents@[i]));
                    assert(scopes@[k as int] == before[k as int]);
                }
            }
        }
        entries.push((id, names[e]));

        e += 1;
    }
    proof {
        if no_groups(plugins@) {
            let g = groups@.len();
            assert(g == 0);
            assert(entries@.len() == plugins@.len());
            assert forall|j: int| 0 <= j < entries@.len() implies (crate::scopes::repeats_earlier(entries@, j)
                <==> #[trigger] repeats_plugin_name(plugins@, j)) by {
                assert(opt_text_ref(names@[g + j]) == plugins@[j].spec_name());
                assert(parents@[g + j] is None);
                if crate::scopes::repeats_earlier(entries@, j) {
                    let i = choose|i: int|
                        0 <= i < j && (#[trigger] entries@[i]).0 == entries@[j].0 && entries@[i].1 is Some
                            && entries@[i].1.unwrap()@ == entries@[j].1.unwrap()@;
                    assert(opt_text_ref(names@[g + i]) == plugins@[i].spec_name());
                    assert(plugins@[i].spec_name() == plugins@[j].spec_name());
                }
                if repeats_plugin_name(plugins@, j) {
                    let i = choose|i: int| 0 <= i < j && (#[trigger] plugins@[i]).spec_name() == plugins@[j].spec_name();
                    assert(opt_text_ref(names@[g + i]) == plugins@[i].spec_name());
                    assert(parents@[g + i] is None);
                    assert(entries@[i].0 == entries@[j].0);
                    assert(crate::scopes::repeats_earlier(entries@, j));
                }
            }
        }
    }
    match first_repeated_name(&entries) {
        Some(j) => {
            let scope = match parents[j] {
                Some(g) => g.description(),
                None => {
                    proof {
                        reveal_strlit("<root>");
                    }
                    String::from_str("<root>")
                },
            };
            let name = match names[j] {
                Some(n) => n,
                None => "",
            };
            proof {
                let par = match parents@[j as int] { Some(g) => Some(*g), None => None };
                assert(entries@[j as int].1 is Some);
                assert(names@[j as int] == Some(name));
                assert(selected_name(plugins@, par, name@));
                assert(scope@ == scope_of(par));
                lemma_shared_reported(plugins@, groups@, parents@, names@, entries@, scopes@, j as int);
                if no_groups(plugins@) {
                    assert(opt_text_ref(names@[groups@.len() + j]) == plugins@[j as int].spec_name());
                    assert(repeats_plugin_name(plugins@, j as int));
                    assert forall|i: int| 0 <= i < j implies !repeats_plugin_name(plugins@, i) by {
                        assert(!crate::scopes::repeats_earlier(entries@, i));
                    }
                }
            }
            Err(duplicate(scope, name))
        },
        None => {
            proof {
                let gl = groups@.len() as int;
                assert forall|p: int, g: PluginGroup|
                    0 <= p < plugins@.len() && (#[trigger] plugins@[p]).spec_namespace() is None
                        && plugins@[p].spec_name() is Some && #[trigger] encloses_selected(g, plugins@)
                        && g.spec_parent() is None && labels_by_node(plugins@, g) implies g.spec_name()
                    != plugins@[p].spec_name() by {
                    let q = choose|q: int| 0 <= q < plugins@.len() && in_chain(g, #[trigger] plugins@[q].spec_namespace());
                    assert(in_chain(g, plugins@[q].spec_namespace()));
                    assert(node_held(groups@, g));
                    let k = choose|k: int| 0 <= k < groups@.len() && (#[trigger] groups@[k]).spec_parent() == g.spec_parent();
                    assert(encloses_selected(*groups@[k], plugins@));
                    assert(groups@[k].spec_name() == g.spec_name());
                    assert(opt_text_ref(names@[k]) == groups@[k].spec_name());
                    assert(opt_group(parents@[k]) == groups@[k].spec_parent());
                    assert(entries@[k].0 is None);
                    assert(entries@[k].1 == names@[k]);
                    assert(opt_text_ref(names@[gl + p]) == plugins@[p].spec_name());
                    assert(opt_group(parents@[gl + p]) is None);
                    assert(entries@[gl + p].0 is None);
                    assert(entries@[gl + p].1 == names@[gl + p]);
                    if g.spec_name() == plugins@[p].spec_name() {
                        assert(crate::scopes::repeats_earlier(entries@, gl + p));
                    }
                }
                lemma_root_names_differ(plugins@, groups@, parents@, names@, entries@);
                if no_groups(plugins@) {
                    assert forall|i: int| 0 <= i < plugins@.len() implies !#[trigger] repeats_plugin_name(plugins@, i) by {
                        assert(!crate::scopes::repeats_earlier(entries@, i));
                    }
                }
            }
            Ok(())
        },
    }
}

} // verus!
