//! Shared plugin declarations. Names are labels for people; identity belongs
//! to the declaration instance and is shared only by cloning.
use std::sync::Arc;
use vstd::prelude::*;
use vstd::string::StringExecFns;
use crate::scopes::{first_repeated_name, ScopedName};
use crate::shared::{same_instance, share};

verus! {

broadcast use vstd::seq::group_seq_axioms;

#[derive(Debug)]
struct Declaration {
    parent: Option<PluginGroup>,
    name: String,
}

/// A shared plugin declaration.
#[derive(Debug)]
pub struct Plugin(Arc<Declaration>);

/// A shared namespace declaration.
#[derive(Debug)]
pub struct PluginGroup(Arc<Declaration>);

/// Joins the names with `/`.
pub open spec fn join_names(names: Seq<Seq<char>>) -> Seq<char>
    decreases names.len(),
{
    if names.len() == 0 {
        seq![]
    } else if names.len() == 1 {
        names[0]
    } else {
        join_names(names.drop_last()) + seq!['/'] + names.last()
    }
}

/// The scope a declaration's name lives in: `<root>` without a parent, else
/// the parent's path joined with `/`.
pub open spec fn scope_text(parent: Option<PluginGroup>) -> Seq<char> {
    match parent {
        None => seq!['<', 'r', 'o', 'o', 't', '>'],
        Some(g) => join_names(g.path()),
    }
}

/// `a` is `start` or one of its ancestors.
pub open spec fn in_chain(a: PluginGroup, start: Option<PluginGroup>) -> bool
    decreases start,
{
    match start {
        None => false,
        Some(g) => g == a || in_chain(a, g.spec_parent()),
    }
}

impl PluginGroup {
    /// Names from the outermost group down to this one.
    pub closed spec fn path(self) -> Seq<Seq<char>>
        decreases self,
    {
        match self.0.parent {
            Some(p) => p.path().push(self.0.name@),
            None => seq![self.0.name@],
        }
    }

    /// The group's display name.
    pub closed spec fn spec_name(self) -> Seq<char> {
        self.0.name@
    }

    /// The enclosing group, if any.
    pub closed spec fn spec_parent(self) -> Option<PluginGroup> {
        self.0.parent
    }

    /// A path ends with the group's own name after its parent's path.
    pub proof fn lemma_path(self)
        ensures
            self.path().len() >= 1,
            self.path().last() == self.spec_name(),
            self.spec_parent() matches Some(p) ==> self.path() == p.path().push(self.spec_name())
                && p.path().len() + 1 == self.path().len(),
            self.spec_parent() is None ==> self.path() == seq![self.spec_name()],
        decreases self,
    {
        if let Some(p) = self.0.parent {
            p.lemma_path();
        }
    }

    /// A nested group with this group as its parent.
    pub fn group(&self, name: &str) -> (r: PluginGroup)
        ensures
            r.spec_name() == name@,
            r.spec_parent() == Some(*self),
            r.path() == self.path().push(name@),
    {
        PluginGroup(Arc::new(Declaration { parent: Some(self.clone()), name: name.to_owned() }))
    }

    /// A plugin declared in this group.
    pub fn new(&self, name: &str) -> (r: Plugin)
        ensures
            r.spec_name() == name@,
            r.spec_namespace() == Some(*self),
    {
        Plugin(Arc::new(Declaration { parent: Some(self.clone()), name: name.to_owned() }))
    }

    /// The group's display name.
    pub fn name(&self) -> (r: &str)
        ensures
            r@ == self.spec_name(),
    {
        self.0.name.as_str()
    }

    /// The enclosing group, if any.
    pub fn parent(&self) -> (r: Option<&PluginGroup>)
        ensures
            r matches Some(p) ==> self.spec_parent() == Some(*p),
            r is None ==> self.spec_parent() is None,
    {
        match &self.0.parent {
            Some(p) => Some(p),
            None => None,
        }
    }

    /// Whether both handles refer to the same group instance. The same
    /// instance has the same name and parent.
    pub fn same(&self, other: &PluginGroup) -> (r: bool)
        ensures
            r ==> *self == *other,
    {
        same_instance(&self.0, &other.0)
    }
}

impl Clone for PluginGroup {
    /// Another handle to the same group instance.
    fn clone(&self) -> (r: PluginGroup)
        ensures
            r == *self,
    {
        PluginGroup(share(&self.0))
    }
}

impl Plugin {
    /// The plugin's display name.
    pub closed spec fn spec_name(self) -> Seq<char> {
        self.0.name@
    }

    /// The group the plugin is declared in, if any.
    pub closed spec fn spec_namespace(self) -> Option<PluginGroup> {
        self.0.parent
    }

    /// A plugin declared outside any group.
    pub fn new(name: &str) -> (r: Plugin)
        ensures
            r.spec_name() == name@,
            r.spec_namespace() is None,
    {
        Plugin(Arc::new(Declaration { parent: None, name: name.to_owned() }))
    }

    /// A group declared outside any other group.
    pub fn group(name: &str) -> (r: PluginGroup)
        ensures
            r.spec_name() == name@,
            r.spec_parent() is None,
            r.path() == seq![name@],
    {
        PluginGroup(Arc::new(Declaration { parent: None, name: name.to_owned() }))
    }

    /// The plugin's display name.
    pub fn name(&self) -> (r: &str)
        ensures
            r@ == self.spec_name(),
    {
        self.0.name.as_str()
    }

    /// The shared namespace declaration. Names remain display labels only.
    pub fn namespace(&self) -> (r: Option<&PluginGroup>)
        ensures
            r matches Some(g) ==> self.spec_namespace() == Some(*g),
            r is None ==> self.spec_namespace() is None,
    {
        match &self.0.parent {
            Some(g) => Some(g),
            None => None,
        }
    }

    /// Whether both handles refer to the same plugin instance. The same
    /// instance has the same name and namespace.
    pub fn same(&self, other: &Plugin) -> (r: bool)
        ensures
            r ==> *self == *other,
    {
        same_instance(&self.0, &other.0)
    }
}

impl Clone for Plugin {
    /// Another handle to the same plugin instance.
    fn clone(&self) -> (r: Plugin)
        ensures
            r == *self,
    {
        Plugin(share(&self.0))
    }
}


/// The names on the path to `c`, outermost first; empty without a group.
pub open spec fn opt_path(c: Option<PluginGroup>) -> Seq<Seq<char>> {
    match c {
        None => seq![],
        Some(g) => g.path(),
    }
}

/// Some selected declaration, a plugin or one of the groups enclosing a
/// plugin, has this parent and this name.
pub open spec fn selected_entry(plugins: Seq<&Plugin>, parent: Option<PluginGroup>, name: Seq<char>) -> bool {
    exists|p: int|
        0 <= p < plugins.len() && {
            ||| (plugins[p].spec_namespace() == parent && plugins[p].spec_name() == name)
            ||| exists|g: PluginGroup|
                in_chain(g, #[trigger] plugins[p].spec_namespace()) && g.spec_parent() == parent
                    && g.spec_name() == name
        }
}

proof fn lemma_in_chain_parent(c: PluginGroup, start: Option<PluginGroup>)
    requires
        in_chain(c, start),
    ensures
        c.spec_parent() matches Some(q) ==> in_chain(q, start),
    decreases start,
{
    match start {
        None => {},
        Some(g) => {
            if g != c {
                lemma_in_chain_parent(c, g.spec_parent());
            } else {
                if let Some(q) = c.spec_parent() {
                    assert(in_chain(q, g.spec_parent())) by {
                        reveal_with_fuel(in_chain, 2);
                    }
                }
            }
        },
    }
}

/// `g` is `plugins[p]`'s namespace or one of its ancestors, for some `p`.
pub open spec fn encloses_selected(g: PluginGroup, plugins: Seq<&Plugin>) -> bool {
    exists|p: int| 0 <= p < plugins.len() && in_chain(g, #[trigger] plugins[p].spec_namespace())
}

/// Names of the groups from the outermost down to `group`, joined with `/`.
pub fn group_description(group: &PluginGroup) -> (r: String)
    ensures
        r@ == join_names(group.path()),
{
    let mut names: Vec<&str> = Vec::new();
    let mut current: Option<&PluginGroup> = Some(group);
    loop
        invariant
            group.path() == opt_path(match current { Some(c) => Some(*c), None => None })
                + names@.map_values(|s: &str| s@).reverse(),
        ensures
            current is None,
        decreases opt_path(match current { Some(c) => Some(*c), None => None }).len(),
    {
        match current {
            None => break,
            Some(g) => {
                proof {
                    g.lemma_path();
                }
                let ghost before = names@;
                names.push(g.name());
                proof {
                    assert(names@.map_values(|s: &str| s@).reverse() =~= seq![g.spec_name()]
                        + before.map_values(|s: &str| s@).reverse());
                    if let Some(q) = g.spec_parent() {
                        q.lemma_path();
                    }
                }
                current = g.parent();
            },
        }
    }
    let ghost parts = names@.map_values(|s: &str| s@).reverse();
    let mut out = String::new();
    let n = names.len();
    let mut k: usize = 0;
    while k < n
        invariant
            n == names@.len(),
            parts == names@.map_values(|s: &str| s@).reverse(),
            0 <= k <= n,
            out@ == join_names(parts.take(k as int)),
        decreases n - k,
    {
        if k > 0 {
            proof {
                reveal_strlit("/");
            }
            out.append("/");
        }
        out.append(names[n - 1 - k]);
        proof {
            assert(parts.take(k + 1).drop_last() =~= parts.take(k as int));
            assert(parts[k as int] == names@[n - 1 - k]@);
            if k == 0 {
                assert(out@ =~= join_names(parts.take(1)));
            }
        }
        k += 1;
    }
    assert(parts.take(n as int) =~= parts);
    out
}

/// A display-name collision among selected declarations, not an identity error.
#[derive(Debug, Clone, PartialEq, Eq)]
pub struct NameCollision {
    pub scope: String,
    pub name: String,
}

/// The scope text for a parent: `<root>` without one, else its path joined with `/`.
fn format_scope(parent: Option<&PluginGroup>) -> (r: String)
    ensures
        r@ == scope_text(match parent { Some(g) => Some(*g), None => None }),
{
    match parent {
        Some(g) => group_description(g),
        None => {
            proof {
                reveal_strlit("<root>");
            }
            String::from_str("<root>")
        },
    }
}

/// The position in `groups` of `group`'s instance, if it is there. A
/// reported position holds a group equal to `group`.
fn find_group(groups: &Vec<&PluginGroup>, group: &PluginGroup) -> (r: Option<usize>)
    ensures
        r matches Some(k) ==> k < groups@.len() && *groups@[k as int] == *group,
{
    let mut k: usize = 0;
    while k < groups.len()
        invariant
            0 <= k <= groups@.len(),
        decreases groups@.len() - k,
    {
        if groups[k].same(group) {
            return Some(k);
        }
        k += 1;
    }
    None
}

/// `id` numbers the scope of `parent` among `groups`: none for the root, else
/// a position holding a group equal to `parent`.
pub open spec fn scope_ok(groups: Seq<&PluginGroup>, id: Option<usize>, parent: Option<PluginGroup>) -> bool {
    match id {
        None => parent is None,
        Some(q) => q < groups.len() && parent == Some(*groups[q as int]),
    }
}

/// A scope number stays right when more groups are added.
proof fn lemma_scope_ok_push(groups: Seq<&PluginGroup>, x: &PluginGroup, id: Option<usize>, parent: Option<PluginGroup>)
    requires
        scope_ok(groups, id, parent),
    ensures
        scope_ok(groups.push(x), id, parent),
{
    if let Some(q) = id {
        assert(groups.push(x)[q as int] == groups[q as int]);
    }
}

/// Some entry of `groups` is the group `g`.
pub open spec fn holds_group(groups: Seq<&PluginGroup>, g: PluginGroup) -> bool {
    exists|k: int| 0 <= k < groups.len() && *#[trigger] groups[k] == g
}

/// Every entry's parent is held too, except possibly a parent equal to `pending`.
pub open spec fn parents_held(groups: Seq<&PluginGroup>, pending: Option<PluginGroup>) -> bool {
    forall|k: int|
        0 <= k < groups.len() ==> ((#[trigger] groups[k]).spec_parent() matches Some(q) ==> holds_group(
            groups,
            q,
        ) || pending == Some(q))
}

/// With every parent held, the whole chain above a held group is held.
proof fn lemma_chain_held(groups: Seq<&PluginGroup>, g: PluginGroup, a: PluginGroup)
    requires
        parents_held(groups, None),
        holds_group(groups, g),
        in_chain(a, Some(g)),
    ensures
        holds_group(groups, a),
    decreases g.path().len(),
{
    if g != a {
        g.lemma_path();
        assert(in_chain(a, g.spec_parent()));
        let k = choose|k: int| 0 <= k < groups.len() && *#[trigger] groups[k] == g;
        assert(groups[k].spec_parent() == g.spec_parent());
        match g.spec_parent() {
            Some(q) => {
                assert(groups[k].spec_parent() matches Some(q2) && q2 == q);
                assert(holds_group(groups, q));
                assert(q.path().len() < g.path().len());
                lemma_chain_held(groups, q, a);
            },
            None => {
                assert(!in_chain(a, None));
            },
        }
    }
}

/// A held group stays held when more groups are added after it.
proof fn lemma_held_push(groups: Seq<&PluginGroup>, x: &PluginGroup, g: PluginGroup)
    requires
        holds_group(groups, g),
    ensures
        holds_group(groups.push(x), g),
{
    let k = choose|k: int| 0 <= k < groups.len() && *#[trigger] groups[k] == g;
    assert(groups.push(x)[k] == groups[k]);
}

/// The groups enclosing the selected plugins, found by walking from each
/// plugin's namespace outwards until a group already found (the same
/// instance). Every group it holds encloses a selected plugin, and every
/// group that encloses one is held. Alongside, the scope number of each
/// group's parent and of each plugin's namespace, as found on the walk.
fn collect_groups<'a>(plugins: &[&'a Plugin]) -> (r: (Vec<&'a PluginGroup>, Vec<Option<usize>>, Vec<Option<usize>>))
    ensures
        forall|k: int| 0 <= k < r.0@.len() ==> encloses_selected(*#[trigger] r.0@[k], plugins@),
        forall|p: int, g: PluginGroup|
            0 <= p < plugins@.len() && #[trigger] in_chain(g, plugins@[p].spec_namespace()) ==> holds_group(
                r.0@,
                g,
            ),
        no_groups(plugins@) ==> r.0@.len() == 0,
        r.1@.len() == r.0@.len(),
        forall|k: int| 0 <= k < r.0@.len() ==> scope_ok(r.0@, #[trigger] r.1@[k], r.0@[k].spec_parent()),
        r.2@.len() == plugins@.len(),
        forall|p: int| 0 <= p < plugins@.len() ==> scope_ok(r.0@, #[trigger] r.2@[p], plugins@[p].spec_namespace()),
{
    let mut groups: Vec<&'a PluginGroup> = Vec::new();
    let mut gids: Vec<Option<usize>> = Vec::new();
    let mut pids: Vec<Option<usize>> = Vec::new();
    let mut i: usize = 0;
    while i < plugins.len()
        invariant
            0 <= i <= plugins@.len(),
            gids@.len() == groups@.len(),
            forall|k: int| 0 <= k < groups@.len() ==> scope_ok(groups@, #[trigger] gids@[k], groups@[k].spec_parent()),
            pids@.len() == i,
            forall|p: int| 0 <= p < i ==> scope_ok(groups@, #[trigger] pids@[p], plugins@[p].spec_namespace()),
            forall|k: int| 0 <= k < groups@.len() ==> encloses_selected(*#[trigger] groups@[k], plugins@),
            no_groups(plugins@) ==> groups@.len() == 0,
            parents_held(groups@, None),
            forall|p: int, g: PluginGroup|
                0 <= p < i && #[trigger] in_chain(g, plugins@[p].spec_namespace()) ==> holds_group(
                    groups@,
                    g,
                ),
        decreases plugins@.len() - i,
    {
        let plugin = plugins[i];
        let mut parent = plugin.namespace();
        let mut first = true;
        let mut open: Option<usize> = None;
        loop
            invariant_except_break
                first ==> open is None && pids@.len() == i && opt_group(parent) == plugin.spec_namespace(),
                !first ==> pids@.len() == i + 1 && scope_ok(groups@, pids@[i as int], plugin.spec_namespace()),
                open matches Some(m) ==> !first && m < groups@.len() && groups@[m as int].spec_parent()
                    == opt_group(parent),
                forall|k: int|
                    0 <= k < groups@.len() && !(open matches Some(m) && m == k) ==> scope_ok(
                        groups@,
                        #[trigger] gids@[k],
                        groups@[k].spec_parent(),
                    ),
            invariant
                0 <= i < plugins@.len(),
                gids@.len() == groups@.len(),
                pids@.len() <= i + 1,
                forall|p: int| 0 <= p < i ==> scope_ok(groups@, #[trigger] pids@[p], plugins@[p].spec_namespace()),
                plugin == plugins@[i as int],
                parent matches Some(c) ==> in_chain(*c, plugin.spec_namespace()),
                forall|k: int| 0 <= k < groups@.len() ==> encloses_selected(*#[trigger] groups@[k], plugins@),
                no_groups(plugins@) ==> groups@.len() == 0 && parent is None,
                parents_held(groups@, match parent { Some(c) => Some(*c), None => None }),
                forall|p: int, g: PluginGroup|
                    0 <= p < i && #[trigger] in_chain(g, plugins@[p].spec_namespace()) ==> holds_group(
                        groups@,
                        g,
                    ),
                forall|g: PluginGroup|
                    #[trigger] in_chain(g, plugin.spec_namespace()) && !in_chain(
                        g,
                        match parent { Some(c) => Some(*c), None => None },
                    ) ==> holds_group(groups@, g),
            ensures
                parents_held(groups@, None),
                gids@.len() == groups@.len(),
                forall|k: int| 0 <= k < groups@.len() ==> scope_ok(groups@, #[trigger] gids@[k], groups@[k].spec_parent()),
                pids@.len() == i + 1,
                forall|p: int| 0 <= p <= i ==> scope_ok(groups@, #[trigger] pids@[p], plugins@[p].spec_namespace()),
                forall|p: int, g: PluginGroup|
                    0 <= p <= i && #[trigger] in_chain(g, plugins@[p].spec_namespace()) ==> holds_group(
                        groups@,
                        g,
                    ),
            decreases opt_path(match parent { Some(c) => Some(*c), None => None }).len(),
        {
            match parent {
                None => {
                    let ghost ids_before = gids@;
                    if first {
                        pids.push(None);
                    } else if let Some(m) = open {
                        gids.set(m, None);
                    }
                    proof {
                        assert forall|k: int| 0 <= k < groups@.len() implies scope_ok(
                            groups@,
                            #[trigger] gids@[k],
                            groups@[k].spec_parent(),
                        ) by {
                            match open {
                                Some(m) => {
                                    if m as int == k {
                                        assert(!first);
                                        assert(groups@[k].spec_parent() is None);
                                    } else {
                                        assert(gids@[k] == ids_before[k]);
                                    }
                                },
                                None => {
                                    assert(gids@[k] == ids_before[k]);
                                },
                            }
                        }
                    }
                    proof {
                        assert forall|p: int, g: PluginGroup|
                            0 <= p <= i && #[trigger] in_chain(g, plugins@[p].spec_namespace()) implies holds_group(
                            groups@,
                            g,
                        ) by {
                            if p == i {
                                assert(!in_chain(g, None));
                            }
                        }
                    }
                    break;
                },
                Some(group) => {
                    let found = find_group(&groups, group);
                    if let Some(k) = found {
                        let ghost ids_before = gids@;
                        if first {
                            pids.push(Some(k));
                        } else if let Some(m) = open {
                            gids.set(m, Some(k));
                        }
                        proof {
                            assert forall|h: int| 0 <= h < groups@.len() implies scope_ok(
                                groups@,
                                #[trigger] gids@[h],
                                groups@[h].spec_parent(),
                            ) by {
                                match open {
                                    Some(m) => {
                                        if m as int == h {
                                            assert(!first);
                                            assert(groups@[h].spec_parent() == Some(*group));
                                        } else {
                                            assert(gids@[h] == ids_before[h]);
                                        }
                                    },
                                    None => {
                                        assert(gids@[h] == ids_before[h]);
                                    },
                                }
                            }
                        }
                        proof {
                            let gs = groups@;
                            assert(holds_group(gs, *group));
                            assert forall|k: int| 0 <= k < gs.len() implies ((#[trigger] gs[k]).spec_parent()
                                matches Some(q) ==> holds_group(gs, q) || None::<PluginGroup> == Some(q)) by {
                                if let Some(q) = gs[k].spec_parent() {
                                    if !holds_group(gs, q) {
                                        assert(Some(*group) == Some(q));
                                    }
                                }
                            }
                            assert forall|p: int, g: PluginGroup|
                                0 <= p <= i && #[trigger] in_chain(g, plugins@[p].spec_namespace()) implies holds_group(
                                gs,
                                g,
                            ) by {
                                if p == i && in_chain(g, Some(*group)) {
                                    lemma_chain_held(gs, *group, g);
                                }
                            }
                        }
                        break;
                    }
                    let ghost before = groups@;
                    let ghost before_ids = gids@;
                    let ghost before_pids = pids@;
                    groups.push(group);
                    gids.push(None);
                    let added = groups.len() - 1;
                    if first {
                        pids.push(Some(added));
                    } else if let Some(m) = open {
                        gids.set(m, Some(added));
                    }
                    proof {
                        assert forall|k: int| 0 <= k < before.len() && !(open matches Some(m) && m == k) implies scope_ok(
                            groups@,
                            #[trigger] gids@[k],
                            groups@[k].spec_parent(),
                        ) by {
                            assert(gids@[k] == before_ids[k]);
                            assert(groups@[k] == before[k]);
                            lemma_scope_ok_push(before, group, before_ids[k], before[k].spec_parent());
                        }
                        assert forall|p: int| 0 <= p < i implies scope_ok(
                            groups@,
                            #[trigger] pids@[p],
                            plugins@[p].spec_namespace(),
                        ) by {
                            assert(pids@[p] == before_pids[p]);
                            lemma_scope_ok_push(before, group, before_pids[p], plugins@[p].spec_namespace());
                        }
                        if let Some(m) = open {
                            assert(groups@[m as int] == before[m as int]);
                        }
                    }
                    first = false;
                    open = Some(added);
                    proof {
                        group.lemma_path();
                        lemma_in_chain_parent(*group, plugin.spec_namespace());
                        assert(in_chain(*groups@[groups@.len() - 1], plugins@[i as int].spec_namespace()));
                        assert(encloses_selected(*groups@[groups@.len() - 1], plugins@));
                        let gs = groups@;
                        let next = group.spec_parent();
                        assert(gs[gs.len() - 1] == group);
                        assert(holds_group(gs, *group));
                        assert forall|g: PluginGroup| holds_group(before, g) implies holds_group(gs, g) by {
                            lemma_held_push(before, group, g);
                        }
                        assert forall|k: int| 0 <= k < gs.len() implies ((#[trigger] gs[k]).spec_parent()
                            matches Some(q) ==> holds_group(gs, q) || next == Some(q)) by {
                            if k < before.len() {
                                assert(gs[k] == before[k]);
                            }
                        }
                        assert forall|g: PluginGroup|
                            #[trigger] in_chain(g, plugin.spec_namespace()) && !in_chain(g, next) implies holds_group(
                            gs,
                            g,
                        ) by {
                            if !in_chain(g, Some(*group)) {
                                assert(holds_group(before, g));
                            } else {
                                assert(g == *group);
                            }
                        }
                    }
                    parent = group.parent();
                },
            }
        }
        i += 1;
    }
    (groups, gids, pids)
}

/// No selected plugin is in a group.
pub open spec fn no_groups(plugins: Seq<&Plugin>) -> bool {
    forall|p: int| 0 <= p < plugins.len() ==> (#[trigger] plugins[p]).spec_namespace() is None
}

/// Plugin `j` has the name of an earlier plugin.
pub open spec fn repeats_plugin_name(plugins: Seq<&Plugin>, j: int) -> bool {
    exists|i: int| 0 <= i < j && (#[trigger] plugins[i]).spec_name() == plugins[j].spec_name()
}

/// The group a reference points to, if any.
pub open spec fn opt_group(p: Option<&PluginGroup>) -> Option<PluginGroup> {
    match p {
        Some(g) => Some(*g),
        None => None,
    }
}

/// Two selected declarations have this parent and this name: two plugins at
/// different positions, a plugin and a group enclosing a selected plugin, or
/// two instances of enclosing groups (which may be equal in value, so that
/// the last case shows only one such group).
pub open spec fn shared_entry(plugins: Seq<&Plugin>, parent: Option<PluginGroup>, name: Seq<char>) -> bool {
    ||| exists|i: int, j: int|
        0 <= i < j < plugins.len() && (#[trigger] plugins[i]).spec_namespace() == parent
            && (#[trigger] plugins[j]).spec_namespace() == parent && plugins[i].spec_name() == name
            && plugins[j].spec_name() == name
    ||| exists|p: int, g: PluginGroup|
        0 <= p < plugins.len() && #[trigger] encloses_selected(g, plugins) && g.spec_parent() == parent
            && g.spec_name() == name && (#[trigger] plugins[p]).spec_namespace() == parent
            && plugins[p].spec_name() == name
    ||| exists|g: PluginGroup|
        #[trigger] encloses_selected(g, plugins) && g.spec_parent() == parent && g.spec_name() == name
}

/// What the name check knows of its entries: the groups first, then the
/// plugins, each as its parent and its name.
spec fn entries_of(
    plugins: Seq<&Plugin>,
    groups: Seq<&PluginGroup>,
    parents: Seq<Option<&PluginGroup>>,
    names: Seq<&str>,
    entries: Seq<ScopedName>,
) -> bool {
    &&& parents.len() == names.len()
    &&& names.len() == groups.len() + plugins.len()
    &&& entries.len() == names.len()
    &&& forall|k: int| 0 <= k < groups.len() ==> encloses_selected(*#[trigger] groups[k], plugins)
    &&& forall|p: int, g: PluginGroup|
        0 <= p < plugins.len() && #[trigger] in_chain(g, plugins[p].spec_namespace()) ==> holds_group(
            groups,
            g,
        )
    &&& forall|e: int|
        0 <= e < groups.len() ==> (#[trigger] names[e])@ == groups[e].spec_name() && opt_group(parents[e])
            == groups[e].spec_parent()
    &&& forall|e: int|
        0 <= e < plugins.len() ==> (#[trigger] names[groups.len() + e])@ == plugins[e].spec_name()
            && opt_group(parents[groups.len() + e]) == plugins[e].spec_namespace()
    &&& forall|i: int| 0 <= i < entries.len() ==> (#[trigger] entries[i]).1 == Some(names[i])
    &&& forall|i: int| 0 <= i < entries.len() ==> ((#[trigger] entries[i]).0 is None <==> parents[i] is None)
}

/// A reported repeat is a name that two selected declarations share under
/// equal parents.
proof fn lemma_shared_reported(
    plugins: Seq<&Plugin>,
    groups: Seq<&PluginGroup>,
    parents: Seq<Option<&PluginGroup>>,
    names: Seq<&str>,
    entries: Seq<ScopedName>,
    scopes: Seq<&PluginGroup>,
    j: int,
)
    requires
        entries_of(plugins, groups, parents, names, entries),
        forall|i: int|
            0 <= i < entries.len() ==> ((#[trigger] entries[i]).0 matches Some(k) ==> k < scopes.len()
                && Some(*scopes[k as int]) == opt_group(parents[i])),
        0 <= j < entries.len(),
        crate::scopes::repeats_earlier(entries, j),
    ensures
        shared_entry(plugins, opt_group(parents[j]), names[j]@),
{
    let i = choose|i: int|
        0 <= i < j && (#[trigger] entries[i]).0 == entries[j].0 && entries[i].1 is Some
            && entries[i].1.unwrap()@ == entries[j].1.unwrap()@;
    let gl = groups.len() as int;
    let par = opt_group(parents[j]);
    assert(entries[i].1 == Some(names[i]));
    assert(entries[j].1 == Some(names[j]));
    assert(names[i]@ == names[j]@);
    assert(opt_group(parents[i]) == par) by {
        if entries[j].0 is None {
            assert(parents[j] is None);
            assert(parents[i] is None);
        } else {
            let k = entries[j].0.unwrap();
            assert(entries[i].0 == Some(k));
        }
    }
    if j < gl {
        let g = *groups[j];
        assert(names[j]@ == groups[j].spec_name());
        assert(encloses_selected(g, plugins));
    } else if i < gl {
        let p = j - gl;
        let g = *groups[i];
        assert(names[gl + p]@ == plugins[p].spec_name());
        assert(names[i]@ == groups[i].spec_name());
        assert(encloses_selected(g, plugins));
        assert(plugins[p].spec_namespace() == par);
    } else {
        let a = i - gl;
        let b = j - gl;
        assert(names[gl + a]@ == plugins[a].spec_name());
        assert(names[gl + b]@ == plugins[b].spec_name());
        assert(plugins[a].spec_namespace() == par);
        assert(plugins[b].spec_namespace() == par);
    }
}

/// Without repeats, no two root-level plugins share a name, and no root-level
/// plugin shares one with a root group that encloses a selected plugin.
proof fn lemma_root_names_differ(
    plugins: Seq<&Plugin>,
    groups: Seq<&PluginGroup>,
    parents: Seq<Option<&PluginGroup>>,
    names: Seq<&str>,
    entries: Seq<ScopedName>,
)
    requires
        entries_of(plugins, groups, parents, names, entries),
        forall|i: int| 0 <= i < entries.len() ==> !#[trigger] crate::scopes::repeats_earlier(entries, i),
    ensures
        forall|i: int, j: int|
            0 <= i < j < plugins.len() && (#[trigger] plugins[i]).spec_namespace() is None
                && (#[trigger] plugins[j]).spec_namespace() is None ==> plugins[i].spec_name()
                != plugins[j].spec_name(),
        forall|p: int, g: PluginGroup|
            0 <= p < plugins.len() && (#[trigger] plugins[p]).spec_namespace() is None
                && #[trigger] encloses_selected(g, plugins) && g.spec_parent() is None
                ==> g.spec_name() != plugins[p].spec_name(),
{
    let gl = groups.len() as int;
    assert forall|i: int, j: int|
        0 <= i < j < plugins.len() && (#[trigger] plugins[i]).spec_namespace() is None
            && (#[trigger] plugins[j]).spec_namespace() is None implies plugins[i].spec_name()
            != plugins[j].spec_name() by {
        assert(names[gl + i]@ == plugins[i].spec_name());
        assert(names[gl + j]@ == plugins[j].spec_name());
        assert(opt_group(parents[gl + i]) is None);
        assert(opt_group(parents[gl + j]) is None);
        assert(entries[gl + i].0 is None);
        assert(entries[gl + j].0 is None);
        assert(entries[gl + i].1 == Some(names[gl + i]));
        assert(entries[gl + j].1 == Some(names[gl + j]));
        if plugins[i].spec_name() == plugins[j].spec_name() {
            assert(crate::scopes::repeats_earlier(entries, gl + j));
        }
    }
    assert forall|p: int, g: PluginGroup|
        0 <= p < plugins.len() && (#[trigger] plugins[p]).spec_namespace() is None
            && #[trigger] encloses_selected(g, plugins) && g.spec_parent() is None implies g.spec_name()
            != plugins[p].spec_name() by {
        let q = choose|q: int| 0 <= q < plugins.len() && in_chain(g, #[trigger] plugins[q].spec_namespace());
        assert(in_chain(g, plugins[q].spec_namespace()));
        assert(holds_group(groups, g));
        let k = choose|k: int| 0 <= k < groups.len() && *#[trigger] groups[k] == g;
        assert(names[k]@ == groups[k].spec_name());
        assert(opt_group(parents[k]) == groups[k].spec_parent());
        assert(entries[k].0 is None);
        assert(entries[k].1 == Some(names[k]));
        assert(names[gl + p]@ == plugins[p].spec_name());
        assert(opt_group(parents[gl + p]) is None);
        assert(entries[gl + p].0 is None);
        assert(entries[gl + p].1 == Some(names[gl + p]));
        if g.spec_name() == plugins[p].spec_name() {
            assert(crate::scopes::repeats_earlier(entries, gl + p));
        }
    }
}

/// Two entries under equal parents with equal names make a repeat: where
/// their scope numbers differ, the groups they number are two entries
/// under equal parents with equal names one level up, and at the top both
/// are at the root.
proof fn lemma_equal_entries_repeat(
    plugins: Seq<&Plugin>,
    groups: Seq<&PluginGroup>,
    parents: Seq<Option<&PluginGroup>>,
    names: Seq<&str>,
    entries: Seq<ScopedName>,
    a: int,
    b: int,
)
    requires
        entries_of(plugins, groups, parents, names, entries),
        forall|i: int| 0 <= i < entries.len() ==> scope_ok(groups, (#[trigger] entries[i]).0, opt_group(parents[i])),
        0 <= a < entries.len(),
        0 <= b < entries.len(),
        a != b,
        opt_group(parents[a]) == opt_group(parents[b]),
        names[a]@ == names[b]@,
    ensures
        exists|j: int| 0 <= j < entries.len() && #[trigger] crate::scopes::repeats_earlier(entries, j),
    decreases opt_path(opt_group(parents[a])).len(),
{
    assert(scope_ok(groups, entries[a].0, opt_group(parents[a])));
    assert(scope_ok(groups, entries[b].0, opt_group(parents[b])));
    if entries[a].0 == entries[b].0 {
        let i = if a < b { a } else { b };
        let j = if a < b { b } else { a };
        assert(entries[i].1 == Some(names[i]));
        assert(entries[j].1 == Some(names[j]));
        assert(entries[i].0 == entries[j].0);
        assert(crate::scopes::repeats_earlier(entries, j));
    } else {
        let qa = entries[a].0.unwrap() as int;
        let qb = entries[b].0.unwrap() as int;
        let g = *groups[qa];
        assert(opt_group(parents[a]) == Some(g));
        assert(g == *groups[qb]);
        assert(names[qa]@ == groups[qa].spec_name());
        assert(names[qb]@ == groups[qb].spec_name());
        assert(opt_group(parents[qa]) == groups[qa].spec_parent());
        assert(opt_group(parents[qb]) == groups[qb].spec_parent());
        g.lemma_path();
        if let Some(p) = g.spec_parent() {
            assert(opt_path(Some(p)).len() < opt_path(Some(g)).len());
        }
        lemma_equal_entries_repeat(plugins, groups, parents, names, entries, qa, qb);
    }
}

/// Checks selected plugins and their enclosing groups for equal names under
/// one parent instance. Unselected declarations do not take part, and a `/`
/// in a name does not create a namespace. A reported collision names a
/// selected declaration's name and the scope of its parent.
pub fn validate_names(plugins: &[&Plugin]) -> (r: Result<(), NameCollision>)
    ensures
        r matches Err(c) ==> exists|parent: Option<PluginGroup>|
            selected_entry(plugins@, parent, c.name@) && c.scope@ == scope_text(parent),
        r matches Err(c) ==> exists|parent: Option<PluginGroup>|
            shared_entry(plugins@, parent, c.name@) && c.scope@ == scope_text(parent),
        r is Ok ==> forall|i: int, j: int|
            0 <= i < j < plugins@.len() && (#[trigger] plugins@[i]).spec_namespace() is None
                && (#[trigger] plugins@[j]).spec_namespace() is None ==> plugins@[i].spec_name()
                != plugins@[j].spec_name(),
        r is Ok ==> forall|p: int, g: PluginGroup|
            0 <= p < plugins@.len() && (#[trigger] plugins@[p]).spec_namespace() is None
                && #[trigger] encloses_selected(g, plugins@) && g.spec_parent() is None
                ==> g.spec_name() != plugins@[p].spec_name(),
        forall|i: int, j: int|
            0 <= i < j < plugins@.len() && (#[trigger] plugins@[i]).spec_namespace()
                == (#[trigger] plugins@[j]).spec_namespace() && plugins@[i].spec_name() == plugins@[j].spec_name()
                ==> r is Err,
        no_groups(plugins@) ==> match r {
            Ok(()) => forall|j: int| 0 <= j < plugins@.len() ==> !#[trigger] repeats_plugin_name(plugins@, j),
            Err(c) => exists|j: int|
                0 <= j < plugins@.len() && #[trigger] repeats_plugin_name(plugins@, j) && (forall|i: int|
                    0 <= i < j ==> !repeats_plugin_name(plugins@, i)) && c.name@ == plugins@[j].spec_name()
                    && c.scope@ == scope_text(None),
        },
{
    let (groups, gids, pids) = collect_groups(plugins);
    let mut parents: Vec<Option<&PluginGroup>> = Vec::new();
    let mut names: Vec<&str> = Vec::new();
    let mut k: usize = 0;
    while k < groups.len()
        invariant
            0 <= k <= groups@.len(),
            parents@.len() == names@.len(),
            names@.len() == k,
            forall|k: int| 0 <= k < groups@.len() ==> encloses_selected(*#[trigger] groups@[k], plugins@),
            forall|e: int|
                0 <= e < k ==> (#[trigger] names@[e])@ == groups@[e].spec_name() && opt_group(parents@[e])
                    == groups@[e].spec_parent(),
            forall|e: int|
                0 <= e < names@.len() ==> selected_entry(
                    plugins@,
                    match #[trigger] parents@[e] { Some(g) => Some(*g), None => None },
                    names@[e]@,
                ),
        decreases groups@.len() - k,
    {
        let g = groups[k];
        proof {
            assert(encloses_selected(*g, plugins@));
            let p = choose|p: int| 0 <= p < plugins@.len() && in_chain(*g, #[trigger] plugins@[p].spec_namespace());
            assert(in_chain(*g, plugins@[p].spec_namespace()));
        }
        parents.push(g.parent());
        names.push(g.name());
        k += 1;
    }
    let mut k: usize = 0;
    while k < plugins.len()
        invariant
            0 <= k <= plugins@.len(),
            parents@.len() == names@.len(),
            names@.len() == groups@.len() + k,
            no_groups(plugins@) ==> groups@.len() == 0,
            forall|e: int|
                0 <= e < k ==> (#[trigger] names@[groups@.len() + e])@ == plugins@[e].spec_name()
                    && parents@[groups@.len() + e] is None == plugins@[e].spec_namespace() is None
                    && opt_group(parents@[groups@.len() + e]) == plugins@[e].spec_namespace(),
            forall|e: int|
                0 <= e < groups@.len() ==> (#[trigger] names@[e])@ == groups@[e].spec_name() && opt_group(
                    parents@[e],
                ) == groups@[e].spec_parent(),
            forall|e: int|
                0 <= e < names@.len() ==> selected_entry(
                    plugins@,
                    match #[trigger] parents@[e] { Some(g) => Some(*g), None => None },
                    names@[e]@,
                ),
        decreases plugins@.len() - k,
    {
        let p = plugins[k];
        parents.push(p.namespace());
        names.push(p.name());
        k += 1;
    }
    let mut entries: Vec<ScopedName> = Vec::new();
    let gl = groups.len();
    let mut e: usize = 0;
    while e < names.len()
        invariant
            0 <= e <= names@.len(),
            gl == groups@.len(),
            parents@.len() == names@.len(),
            names@.len() == groups@.len() + plugins@.len(),
            gids@.len() == groups@.len(),
            forall|k: int| 0 <= k < groups@.len() ==> scope_ok(groups@, #[trigger] gids@[k], groups@[k].spec_parent()),
            pids@.len() == plugins@.len(),
            forall|p: int| 0 <= p < plugins@.len() ==> scope_ok(groups@, #[trigger] pids@[p], plugins@[p].spec_namespace()),
            forall|q: int|
                0 <= q < plugins@.len() ==> opt_group(parents@[groups@.len() + q]) == (#[trigger] plugins@[q]).spec_namespace(),
            forall|q: int| 0 <= q < groups@.len() ==> opt_group(parents@[q]) == (#[trigger] groups@[q]).spec_parent(),
            entries@.len() == e,
            forall|i: int| 0 <= i < e ==> (#[trigger] entries@[i]).1 == Some(names@[i]),
            forall|i: int| 0 <= i < e ==> ((#[trigger] entries@[i]).0 is None <==> parents@[i] is None),
            forall|i: int| 0 <= i < e ==> scope_ok(groups@, (#[trigger] entries@[i]).0, opt_group(parents@[i])),
        decreases names@.len() - e,
    {
        let id = if e < gl {
            proof {
                assert(scope_ok(groups@, gids@[e as int], groups@[e as int].spec_parent()));
            }
            gids[e]
        } else {
            proof {
                let q = e - gl;
                assert(scope_ok(groups@, pids@[q], plugins@[q].spec_namespace()));
                assert(opt_group(parents@[gl + q]) == plugins@[q].spec_namespace());
            }
            pids[e - gl]
        };
        proof {
            assert(scope_ok(groups@, id, opt_group(parents@[e as int])));
        }
        entries.push((id, Some(names[e])));
        e += 1;
    }
    proof {
        if no_groups(plugins@) {
            let g = groups@.len();
            assert(g == 0);
            assert forall|j: int| 0 <= j < entries@.len() implies (crate::scopes::repeats_earlier(entries@, j)
                <==> #[trigger] repeats_plugin_name(plugins@, j)) by {
                assert(names@[g + j]@ == plugins@[j].spec_name());
                assert(parents@[g + j] is None);
                if crate::scopes::repeats_earlier(entries@, j) {
                    let i = choose|i: int|
                        0 <= i < j && (#[trigger] entries@[i]).0 == entries@[j].0 && entries@[i].1 is Some
                            && entries@[i].1.unwrap()@ == entries@[j].1.unwrap()@;
                    assert(names@[g + i]@ == plugins@[i].spec_name());
                    assert(plugins@[i].spec_name() == plugins@[j].spec_name());
                }
                if repeats_plugin_name(plugins@, j) {
                    let i = choose|i: int| 0 <= i < j && (#[trigger] plugins@[i]).spec_name() == plugins@[j].spec_name();
                    assert(names@[g + i]@ == plugins@[i].spec_name());
                    assert(parents@[g + i] is None);
                    assert(entries@[i].0 == entries@[j].0);
                    assert(crate::scopes::repeats_earlier(entries@, j));
                }
            }
        }
    }
    match first_repeated_name(&entries) {
        Some(j) => {
            let scope = format_scope(parents[j]);
            let name = names[j].to_owned();
            proof {
                assert(selected_entry(
                    plugins@,
                    match parents@[j as int] { Some(g) => Some(*g), None => None },
                    names@[j as int]@,
                ));
                lemma_shared_reported(plugins@, groups@, parents@, names@, entries@, groups@, j as int);
                if no_groups(plugins@) {
                    assert(names@[groups@.len() + j]@ == plugins@[j as int].spec_name());
                    assert(repeats_plugin_name(plugins@, j as int));
                    assert forall|i: int| 0 <= i < j implies !repeats_plugin_name(plugins@, i) by {
                        assert(!crate::scopes::repeats_earlier(entries@, i));
                    }
                }
            }
            Err(NameCollision { scope, name })
        },
        None => {
            proof {
                assert forall|i: int, j: int|
                    0 <= i < j < plugins@.len() && (#[trigger] plugins@[i]).spec_namespace()
                        == (#[trigger] plugins@[j]).spec_namespace() && plugins@[i].spec_name()
                        == plugins@[j].spec_name() implies false by {
                    let g = groups@.len() as int;
                    assert(names@[g + i]@ == plugins@[i].spec_name());
                    assert(names@[g + j]@ == plugins@[j].spec_name());
                    lemma_equal_entries_repeat(plugins@, groups@, parents@, names@, entries@, g + i, g + j);
                    let w = choose|w: int| 0 <= w < entries@.len() && #[trigger] crate::scopes::repeats_earlier(entries@, w);
                    assert(!crate::scopes::repeats_earlier(entries@, w));
                }
                lemma_root_names_differ(plugins@, groups@, parents@, names@, entries@);
                if no_groups(plugins@) {
                    assert(entries@.len() == plugins@.len());
                    assert forall|i: int| 0 <= i < plugins@.len() implies !#[trigger] repeats_plugin_name(plugins@, i) by {
                        assert(!crate::scopes::repeats_earlier(entries@, i));
                    }
                }
            }
            Ok(())
        },
    }
}

} // verus!
