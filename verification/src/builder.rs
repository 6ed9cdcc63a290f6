//! Grammar composition: a builder of plugins and their rules, kept in the
//! order they were added, where a plugin or a rule can be added once,
//! removed, and a rule moved before another; building checks the plugins'
//! names and sorts the rules by phase, with a dispatch table of inline rules
//! by byte.
use crate::engine::{
    first_repeat, no_groups, no_repeated_rules, phase_text, repeats_plugin_name, rule_label, rules_in,
    validate, BuildError, Contribution, Phase, Plugin,
};
use crate::grammar::{candidates, dispatch};
use vstd::prelude::*;

verus! {

broadcast use vstd::seq::group_seq_axioms;

/// The plugins of a grammar in the order they were added, and their rules,
/// each with the plugin that contributed it, in grammar order.
pub struct GrammarBuilder {
    plugins: Vec<Plugin>,
    rules: Vec<(Plugin, Contribution)>,
}

/// The rules of `p`, each paired with `p`.
pub open spec fn owned_rules(p: Plugin) -> Seq<(Plugin, Contribution)> {
    p.spec_rules().map_values(|c: Contribution| (p, c))
}

/// The rules of entries, without their owners.
pub open spec fn contributions(entries: Seq<(Plugin, Contribution)>) -> Seq<Contribution> {
    entries.map_values(|e: (Plugin, Contribution)| e.1)
}

/// Rule `k` of `rules` equals a rule among `existing` or an earlier one of
/// `rules`.
pub open spec fn rule_taken(existing: Seq<(Plugin, Contribution)>, rules: Seq<Contribution>, k: int) -> bool {
    ||| exists|j: int| 0 <= j < existing.len() && (#[trigger] existing[j]).1 == rules[k]
    ||| exists|j: int| 0 <= j < k && #[trigger] rules[j] == rules[k]
}

/// The items of `s` whose flag in `keep` is set, in order.
pub open spec fn select<T>(s: Seq<T>, keep: Seq<bool>) -> Seq<T>
    decreases s.len(),
{
    if s.len() == 0 {
        seq![]
    } else if keep.last() {
        select(s.drop_last(), keep.drop_last()).push(s.last())
    } else {
        select(s.drop_last(), keep.drop_last())
    }
}

/// `after` keeps the items of `before` in order, leaving out only items
/// for which `gone` holds.
pub open spec fn retained<T>(before: Seq<T>, after: Seq<T>, gone: spec_fn(T) -> bool) -> bool {
    exists|keep: Seq<bool>|
        keep.len() == before.len() && after == select(before, keep) && forall|i: int|
            0 <= i < before.len() && !#[trigger] keep[i] ==> gone(before[i])
}

/// `s` with the item at `from` moved to where the item at `to` was, in front
/// of it when it moves back and behind it when it moves forward.
pub open spec fn moved<T>(s: Seq<T>, from: int, to: int) -> Seq<T> {
    if from == to {
        s
    } else {
        s.remove(from).insert(if from < to { to - 1 } else { to }, s[from])
    }
}

/// The builder's duplicate error for `element`.
pub open spec fn duplicate_of(e: BuildError, element: Seq<char>) -> bool {
    e matches BuildError::Duplicate { element: d } && d@ == element
}

/// The builder's missing error for `element`.
pub open spec fn missing_of(e: BuildError, element: Seq<char>) -> bool {
    e matches BuildError::Missing { element: d } && d@ == element
}

/// The lines of text joined with line feeds.
pub open spec fn join_lines(lines: Seq<Seq<char>>) -> Seq<char>
    decreases lines.len(),
{
    if lines.len() == 0 {
        seq![]
    } else if lines.len() == 1 {
        lines[0]
    } else {
        join_lines(lines.drop_last()) + "\n"@ + lines.last()
    }
}

/// A line for each plugin: `plugin: ` and its description.
pub open spec fn plugin_lines(plugins: Seq<Plugin>) -> Seq<Seq<char>> {
    plugins.map_values(|p: Plugin| "plugin: "@ + p.spec_description())
}

/// A line for each rule of `phase`, in grammar order: the phase, `: `, the
/// plugin's description, `/` and the rule's label.
pub open spec fn rule_lines(rules: Seq<(Plugin, Contribution)>, phase: Phase) -> Seq<Seq<char>>
    decreases rules.len(),
{
    if rules.len() == 0 {
        seq![]
    } else if rules.last().1.spec_phase() == phase {
        rule_lines(rules.drop_last(), phase).push(
            phase_text(phase) + ": "@ + rules.last().0.spec_description() + "/"@ + rule_label(
                rules.last().1.spec_name(),
            ),
        )
    } else {
        rule_lines(rules.drop_last(), phase)
    }
}

/// The description of a composition: its plugins, then its block, inline
/// and text rules.
pub open spec fn description_lines(b: GrammarBuilder) -> Seq<Seq<char>> {
    plugin_lines(b.spec_plugins()) + rule_lines(b.spec_rules(), Phase::Block) + rule_lines(
        b.spec_rules(),
        Phase::Inline,
    ) + rule_lines(b.spec_rules(), Phase::Text)
}

/// Joins `lines` with line feeds.
fn join_with_line_feeds(lines: &Vec<String>) -> (r: String)
    ensures
        r@ == join_lines(lines@.map_values(|l: String| l@)),
{
    let ghost parts = lines@.map_values(|l: String| l@);
    let mut out = String::new();
    let mut k: usize = 0;
    while k < lines.len()
        invariant
            0 <= k <= lines@.len(),
            parts == lines@.map_values(|l: String| l@),
            out@ == join_lines(parts.take(k as int)),
        decreases lines@.len() - k,
    {
        if k > 0 {
            proof {
                reveal_strlit("\n");
            }
            out.append("\n");
        }
        out.append(lines[k].as_str());
        proof {
            assert(parts.take(k + 1).drop_last() =~= parts.take(k as int));
            assert(parts[k as int] == lines@[k as int]@);
            if k == 0 {
                assert(out@ =~= join_lines(parts.take(1)));
            }
        }
        k += 1;
    }
    assert(parts.take(lines@.len() as int) =~= parts);
    out
}

/// Copies of the plugins, each another handle to the same plugin.
fn copy_plugins(plugins: &Vec<Plugin>) -> (r: Vec<Plugin>)
    ensures
        r@ == plugins@,
{
    let mut out: Vec<Plugin> = Vec::new();
    let mut k: usize = 0;
    while k < plugins.len()
        invariant
            0 <= k <= plugins@.len(),
            out@ == plugins@.take(k as int),
        decreases plugins@.len() - k,
    {
        out.push(plugins[k].clone());
        proof {
            assert(plugins@.take(k + 1) =~= plugins@.take(k as int).push(plugins@[k as int]));
        }
        k += 1;
    }
    proof {
        assert(plugins@.take(plugins@.len() as int) =~= plugins@);
    }
    out
}

/// Copies of the entries, each with the same plugin and rule.
fn copy_entries(rules: &Vec<(Plugin, Contribution)>) -> (r: Vec<(Plugin, Contribution)>)
    ensures
        r@ == rules@,
{
    let mut out: Vec<(Plugin, Contribution)> = Vec::new();
    let mut k: usize = 0;
    while k < rules.len()
        invariant
            0 <= k <= rules@.len(),
            out@ == rules@.take(k as int),
        decreases rules@.len() - k,
    {
        let (p, c) = &rules[k];
        out.push((p.clone(), c.clone()));
        proof {
            assert(rules@.take(k + 1) =~= rules@.take(k as int).push(rules@[k as int]));
        }
        k += 1;
    }
    proof {
        assert(rules@.take(rules@.len() as int) =~= rules@);
    }
    out
}

impl GrammarBuilder {
    /// The plugins, in the order they were added.
    pub closed spec fn spec_plugins(&self) -> Seq<Plugin> {
        self.plugins@
    }

    /// The rules with their plugins, in grammar order.
    pub closed spec fn spec_rules(&self) -> Seq<(Plugin, Contribution)> {
        self.rules@
    }

    /// A builder without plugins.
    pub fn new() -> (r: Self)
        ensures
            r.spec_plugins().len() == 0,
            r.spec_rules().len() == 0,
    {
        GrammarBuilder { plugins: Vec::new(), rules: Vec::new() }
    }

    /// The plugins, in the order they were added.
    pub fn plugins(&self) -> (r: &[Plugin])
        ensures
            r@ == self.spec_plugins(),
    {
        self.plugins.as_slice()
    }

    /// The rules in grammar order, without their plugins.
    pub fn rules(&self) -> (r: Vec<&Contribution>)
        ensures
            r@.map_values(|c: &Contribution| *c) == contributions(self.spec_rules()),
    {
        let mut out: Vec<&Contribution> = Vec::new();
        let mut k: usize = 0;
        while k < self.rules.len()
            invariant
                0 <= k <= self.rules@.len(),
                out@.map_values(|c: &Contribution| *c) == contributions(self.rules@.take(k as int)),
            decreases self.rules@.len() - k,
        {
            out.push(&self.rules[k].1);
            proof {
                assert(contributions(self.rules@.take(k + 1)) =~= contributions(self.rules@.take(k as int)).push(
                    self.rules@[k as int].1,
                ));
                assert(out@.map_values(|c: &Contribution| *c) =~= contributions(self.rules@.take(k + 1)));
            }
            k += 1;
        }
        proof {
            assert(self.rules@.take(self.rules@.len() as int) =~= self.rules@);
        }
        out
    }

    /// The composition as text, one line each: `plugin: ` and the
    /// description of each plugin, then for the block, inline and text phases
    /// in turn each rule of that phase as the phase, `: `, its plugin's
    /// description, `/` and its label.
    pub fn describe(&self) -> (r: String)
        ensures
            r@ == join_lines(description_lines(*self)),
    {
        let mut lines: Vec<String> = Vec::new();
        let mut k: usize = 0;
        while k < self.plugins.len()
            invariant
                0 <= k <= self.plugins@.len(),
                lines@.map_values(|l: String| l@) == plugin_lines(self.plugins@.take(k as int)),
            decreases self.plugins@.len() - k,
        {
            proof {
                reveal_strlit("plugin: ");
            }
            let mut line = "plugin: ".to_string();
            line.append(self.plugins[k].description().as_str());
            lines.push(line);
            proof {
                assert(plugin_lines(self.plugins@.take(k + 1)) =~= plugin_lines(self.plugins@.take(k as int)).push(
                    "plugin: "@ + self.plugins@[k as int].spec_description(),
                ));
                assert(lines@.map_values(|l: String| l@) =~= plugin_lines(self.plugins@.take(k + 1)));
            }
            k += 1;
        }
        proof {
            assert(self.plugins@.take(self.plugins@.len() as int) =~= self.plugins@);
        }
        self.add_rule_lines(&mut lines, Phase::Block);
        self.add_rule_lines(&mut lines, Phase::Inline);
        self.add_rule_lines(&mut lines, Phase::Text);
        join_with_line_feeds(&lines)
    }

    /// Appends the lines of the rules of `phase`.
    fn add_rule_lines(&self, lines: &mut Vec<String>, phase: Phase)
        ensures
            final(lines)@.map_values(|l: String| l@) == old(lines)@.map_values(|l: String| l@) + rule_lines(
                self.spec_rules(),
                phase,
            ),
    {
        let ghost start = lines@.map_values(|l: String| l@);
        let mut k: usize = 0;
        while k < self.rules.len()
            invariant
                0 <= k <= self.rules@.len(),
                lines@.map_values(|l: String| l@) == start + rule_lines(self.rules@.take(k as int), phase),
            decreases self.rules@.len() - k,
        {
            let ghost before = lines@.map_values(|l: String| l@);
            let (plugin, rule) = &self.rules[k];
            proof {
                assert(self.rules@.take(k + 1).drop_last() =~= self.rules@.take(k as int));
                assert(self.rules@.take(k + 1).last() == self.rules@[k as int]);
            }
            if rule.phase_value() == phase {
                proof {
                    reveal_strlit(": ");
                    reveal_strlit("/");
                }
                let mut line = phase.as_str().to_string();
                line.append(": ");
                line.append(plugin.description().as_str());
                line.append("/");
                line.append(rule.description().as_str());
                lines.push(line);
                proof {
                    assert(lines@.map_values(|l: String| l@) =~= before.push(line@));
                }
            }
            k += 1;
        }
        proof {
            assert(self.rules@.take(self.rules@.len() as int) =~= self.rules@);
        }
    }

    /// Adds a plugin and, after the rules already there, its rules. A plugin
    /// already added (one sharing its rule list), or a rule already in the
    /// grammar or twice in the plugin, is a duplicate, and the builder is left
    /// as it was. Which handles share an instance is decided by the handles,
    /// so a duplicate is stated of equal values, and success is promised where
    /// no values are equal.
    pub fn add(&mut self, plugin: &Plugin) -> (r: Result<&mut Self, BuildError>)
        ensures
            r matches Ok(b) ==> b.spec_plugins() == old(self).spec_plugins().push(*plugin)
                && b.spec_rules() == old(self).spec_rules() + owned_rules(*plugin) && *final(self) == *final(b),
            r is Err ==> *final(self) == *old(self),
            r matches Err(e) ==> (duplicate_of(e, plugin.spec_description()) && exists|i: int|
                0 <= i < old(self).spec_plugins().len() && (#[trigger] old(self).spec_plugins()[i]).spec_rules()
                    == plugin.spec_rules())
                || (exists|k: int|
                0 <= k < plugin.spec_rules().len() && #[trigger] rule_taken(
                    old(self).spec_rules(),
                    plugin.spec_rules(),
                    k,
                ) && duplicate_of(e, rule_label(plugin.spec_rules()[k].spec_name()))),
            ((forall|i: int|
                0 <= i < old(self).spec_plugins().len() ==> (#[trigger] old(self).spec_plugins()[i]).spec_rules()
                    != plugin.spec_rules()) && (forall|k: int|
                0 <= k < plugin.spec_rules().len() ==> !#[trigger] rule_taken(
                    old(self).spec_rules(),
                    plugin.spec_rules(),
                    k,
                ))) ==> r is Ok,
    {
        let mut i: usize = 0;
        while i < self.plugins.len()
            invariant
                0 <= i <= self.plugins@.len(),
                *self == *old(self),
            decreases self.plugins@.len() - i,
        {
            if self.plugins[i].same(plugin) {
                proof {
                    assert(old(self).spec_plugins()[i as int].spec_rules() == plugin.spec_rules());
                }
                return Err(BuildError::Duplicate { element: plugin.description() });
            }
            i += 1;
        }
        let rules = plugin.rules();
        let mut k: usize = 0;
        while k < rules.len()
            invariant
                0 <= k <= rules@.len(),
                rules@ == plugin.spec_rules(),
                *self == *old(self),
            decreases rules@.len() - k,
        {
            let mut j: usize = 0;
            while j < self.rules.len()
                invariant
                    0 <= j <= self.rules@.len(),
                    0 <= k < rules@.len(),
                    rules@ == plugin.spec_rules(),
                    *self == *old(self),
                decreases self.rules@.len() - j,
            {
                if self.rules[j].1.same(&rules[k]) {
                    proof {
                        assert(old(self).spec_rules()[j as int].1 == plugin.spec_rules()[k as int]);
                        assert(rule_taken(old(self).spec_rules(), plugin.spec_rules(), k as int));
                    }
                    return Err(BuildError::Duplicate { element: rules[k].description() });
                }
                j += 1;
            }
            let mut j: usize = 0;
            while j < k
                invariant
                    0 <= j <= k,
                    k < rules@.len(),
                    rules@ == plugin.spec_rules(),
                    *self == *old(self),
                decreases k - j,
            {
                if rules[j].same(&rules[k]) {
                    proof {
                        assert(plugin.spec_rules()[j as int] == plugin.spec_rules()[k as int]);
                        assert(rule_taken(old(self).spec_rules(), plugin.spec_rules(), k as int));
                    }
                    return Err(BuildError::Duplicate { element: rules[k].description() });
                }
                j += 1;
            }
            k += 1;
        }
        self.plugins.push(plugin.clone());
        let ghost before = self.rules@;
        let mut k: usize = 0;
        while k < rules.len()
            invariant
                0 <= k <= rules@.len(),
                rules@ == plugin.spec_rules(),
                self.rules@ == before + owned_rules(*plugin).take(k as int),
                before == old(self).spec_rules(),
                self.plugins@ == old(self).spec_plugins().push(*plugin),
            decreases rules@.len() - k,
        {
            self.rules.push((plugin.clone(), rules[k].clone()));
            proof {
                assert(owned_rules(*plugin).take(k + 1) =~= owned_rules(*plugin).take(k as int).push(
                    (*plugin, rules@[k as int]),
                ));
                assert(self.rules@ =~= before + owned_rules(*plugin).take(k + 1));
            }
            k += 1;
        }
        proof {
            assert(owned_rules(*plugin).take(rules@.len() as int) =~= owned_rules(*plugin));
        }
        Ok(self)
    }

    /// Removes a plugin and its rules; removing a plugin that was not added
    /// is an error, and the builder is left as it was. Plugins and rules
    /// left keep their order; only plugins sharing the plugin's rule list
    /// leave, with the rules they contributed.
    pub fn remove(&mut self, plugin: &Plugin) -> (r: Result<&mut Self, BuildError>)
        ensures
            r is Err ==> *final(self) == *old(self),
            r matches Err(e) ==> missing_of(e, plugin.spec_description()),
            (forall|i: int|
                0 <= i < old(self).spec_plugins().len() ==> (#[trigger] old(self).spec_plugins()[i]).spec_rules()
                    != plugin.spec_rules()) ==> r is Err,
            r is Ok ==> exists|i: int|
                0 <= i < old(self).spec_plugins().len() && (#[trigger] old(self).spec_plugins()[i]).spec_rules()
                    == plugin.spec_rules(),
            r matches Ok(b) ==> retained(
                old(self).spec_plugins(),
                b.spec_plugins(),
                |p: Plugin| p.spec_rules() == plugin.spec_rules(),
            ) && retained(
                old(self).spec_rules(),
                b.spec_rules(),
                |e: (Plugin, Contribution)| e.0.spec_rules() == plugin.spec_rules(),
            ) && *final(self) == *final(b),
    {
        let mut found = false;
        let mut i: usize = 0;
        while i < self.plugins.len()
            invariant
                0 <= i <= self.plugins@.len(),
                *self == *old(self),
                found ==> exists|q: int|
                    0 <= q < old(self).spec_plugins().len() && (#[trigger] old(self).spec_plugins()[q]).spec_rules()
                        == plugin.spec_rules(),
            decreases self.plugins@.len() - i,
        {
            if self.plugins[i].same(plugin) {
                proof {
                    assert(old(self).spec_plugins()[i as int].spec_rules() == plugin.spec_rules());
                }
                found = true;
            }
            i += 1;
        }
        if !found {
            return Err(BuildError::Missing { element: plugin.description() });
        }
        let ghost gone_plugin = |p: Plugin| p.spec_rules() == plugin.spec_rules();
        let ghost gone_entry = |e: (Plugin, Contribution)| e.0.spec_rules() == plugin.spec_rules();
        let mut plugins: Vec<Plugin> = Vec::new();
        let ghost mut keep: Seq<bool> = seq![];
        let mut k: usize = 0;
        while k < self.plugins.len()
            invariant
                0 <= k <= self.plugins@.len(),
                *self == *old(self),
                keep.len() == k,
                plugins@ == select(self.plugins@.take(k as int), keep),
                forall|q: int| 0 <= q < k && !#[trigger] keep[q] ==> gone_plugin(self.plugins@[q]),
                gone_plugin == (|p: Plugin| p.spec_rules() == plugin.spec_rules()),
            decreases self.plugins@.len() - k,
        {
            let kept = !self.plugins[k].same(plugin);
            if kept {
                plugins.push(self.plugins[k].clone());
            }
            proof {
                let t = self.plugins@.take(k + 1);
                assert(t.drop_last() =~= self.plugins@.take(k as int));
                let previous = keep;
                keep = keep.push(kept);
                assert(keep.drop_last() =~= previous);
            }
            k += 1;
        }
        let mut rules: Vec<(Plugin, Contribution)> = Vec::new();
        let ghost mut keep_rules: Seq<bool> = seq![];
        let mut k: usize = 0;
        while k < self.rules.len()
            invariant
                0 <= k <= self.rules@.len(),
                *self == *old(self),
                keep_rules.len() == k,
                rules@ == select(self.rules@.take(k as int), keep_rules),
                forall|q: int| 0 <= q < k && !#[trigger] keep_rules[q] ==> gone_entry(self.rules@[q]),
                gone_entry == (|e: (Plugin, Contribution)| e.0.spec_rules() == plugin.spec_rules()),
            decreases self.rules@.len() - k,
        {
            let kept = !self.rules[k].0.same(plugin);
            if kept {
                let (p, c) = &self.rules[k];
                rules.push((p.clone(), c.clone()));
            }
            proof {
                let t = self.rules@.take(k + 1);
                assert(t.drop_last() =~= self.rules@.take(k as int));
                let previous = keep_rules;
                keep_rules = keep_rules.push(kept);
                assert(keep_rules.drop_last() =~= previous);
            }
            k += 1;
        }
        proof {
            assert(self.plugins@.take(self.plugins@.len() as int) =~= self.plugins@);
            assert(self.rules@.take(self.rules@.len() as int) =~= self.rules@);
        }
        self.plugins = plugins;
        self.rules = rules;
        Ok(self)
    }

    /// Moves `rule` to where `anchor` is, so that it comes before it when it
    /// moves back; a rule or anchor not in the grammar is an error, and the
    /// builder is left as it was. The first rule found for each is used.
    pub fn before(&mut self, rule: &Contribution, anchor: &Contribution) -> (r: Result<&mut Self, BuildError>)
        ensures
            r is Err ==> *final(self) == *old(self),
            r matches Ok(b) ==> b.spec_plugins() == old(self).spec_plugins() && *final(self) == *final(b),
            r matches Err(e) ==> missing_of(e, rule_label(rule.spec_name())) || missing_of(
                e,
                rule_label(anchor.spec_name()),
            ),
            (forall|j: int| 0 <= j < old(self).spec_rules().len() ==> (#[trigger] old(self).spec_rules()[j]).1
                != *rule) ==> (r matches Err(e) && missing_of(e, rule_label(rule.spec_name()))),
            r matches Ok(b) ==> exists|from: int, to: int|
                0 <= from < old(self).spec_rules().len() && 0 <= to < old(self).spec_rules().len()
                    && (#[trigger] old(self).spec_rules()[from]).1 == *rule && (#[trigger] old(
                    self,
                ).spec_rules()[to]).1 == *anchor && b.spec_rules() == moved(
                    old(self).spec_rules(),
                    from,
                    to,
                ),
    {
        let n = self.rules.len();
        let mut from: usize = n;
        let mut k: usize = 0;
        while k < n
            invariant
                0 <= k <= n,
                n == self.rules@.len(),
                *self == *old(self),
                from == n || (from < n && self.rules@[from as int].1 == *rule),
            decreases n - k,
        {
            if from == n && self.rules[k].1.same(rule) {
                from = k;
            }
            k += 1;
        }
        if from == n {
            return Err(BuildError::Missing { element: rule.description() });
        }
        let mut to: usize = n;
        let mut k: usize = 0;
        while k < n
            invariant
                0 <= k <= n,
                n == self.rules@.len(),
                from < n,
                self.rules@[from as int].1 == *rule,
                *self == *old(self),
                to == n || (to < n && self.rules@[to as int].1 == *anchor),
            decreases n - k,
        {
            if to == n && self.rules[k].1.same(anchor) {
                to = k;
            }
            k += 1;
        }
        if to == n {
            proof {
                assert(old(self).spec_rules()[from as int].1 == *rule);
            }
            return Err(BuildError::Missing { element: anchor.description() });
        }
        proof {
            assert(old(self).spec_rules()[from as int].1 == *rule);
            assert(old(self).spec_rules()[to as int].1 == *anchor);
        }
        if from != to {
            let entry = self.rules.remove(from);
            let at = if from < to { to - 1 } else { to };
            self.rules.insert(at, entry);
            proof {
                assert(self.rules@ =~= moved(old(self).spec_rules(), from as int, to as int));
            }
        }
        assert(self.rules@ == moved(old(self).spec_rules(), from as int, to as int));
        Ok(self)
    }

    /// Checks the plugins' names and rules and compiles the grammar: its
    /// rules by phase in grammar order, and for every byte the inline rules
    /// tried at it. A collision found by [`validate`] is the error.
    pub fn build(self) -> (r: Result<Grammar, BuildError>)
        ensures
            r matches Ok(g) ==> {
                &&& g.spec_definition() == self
                &&& g.spec_inline() == rules_in(contributions(self.spec_rules()), Phase::Inline)
                &&& g.spec_block() == rules_in(contributions(self.spec_rules()), Phase::Block)
                &&& g.spec_text() == rules_in(contributions(self.spec_rules()), Phase::Text)
                &&& g.spec_dispatch().len() == 256
                &&& forall|c: int|
                    0 <= c < 256 ==> #[trigger] g.spec_dispatch()[c] == candidates(
                        g.spec_inline().map_values(|x: Contribution| x.spec_markers()),
                        g.spec_inline().len() as int,
                        c as u8,
                    )
            },
            r matches Err(e) ==> e is DuplicateName,
            forall|p: int, j: int| #[trigger] first_repeat(self.spec_plugins(), p, j) ==> r is Err,
            no_repeated_rules(self.spec_plugins()) && no_groups(self.spec_plugins()) ==> (r is Ok <==> forall|j: int|
                0 <= j < self.spec_plugins().len() ==> !#[trigger] repeats_plugin_name(self.spec_plugins(), j)),
    {
        match validate(self.plugins.as_slice()) {
            Ok(()) => {},
            Err(e) => {
                return Err(e);
            },
        }
        let mut inline: Vec<Contribution> = Vec::new();
        let mut block: Vec<Contribution> = Vec::new();
        let mut text: Vec<Contribution> = Vec::new();
        let mut k: usize = 0;
        while k < self.rules.len()
            invariant
                0 <= k <= self.rules@.len(),
                inline@ == rules_in(contributions(self.rules@.take(k as int)), Phase::Inline),
                block@ == rules_in(contributions(self.rules@.take(k as int)), Phase::Block),
                text@ == rules_in(contributions(self.rules@.take(k as int)), Phase::Text),
            decreases self.rules@.len() - k,
        {
            let c = &self.rules[k].1;
            proof {
                let seen = contributions(self.rules@.take(k + 1));
                assert(seen.drop_last() =~= contributions(self.rules@.take(k as int)));
                assert(seen.last() == *c);
            }
            match c.phase_value() {
                Phase::Inline => inline.push(c.clone()),
                Phase::Block => block.push(c.clone()),
                Phase::Text => text.push(c.clone()),
            }
            k += 1;
        }
        proof {
            assert(self.rules@.take(self.rules@.len() as int) =~= self.rules@);
        }
        let mut markers: Vec<&[u8]> = Vec::new();
        let mut k: usize = 0;
        while k < inline.len()
            invariant
                0 <= k <= inline@.len(),
                markers@.map_values(|m: &[u8]| m@) == inline@.take(k as int).map_values(
                    |x: Contribution| x.spec_markers(),
                ),
            decreases inline@.len() - k,
        {
            markers.push(inline[k].markers());
            proof {
                assert(inline@.take(k + 1).map_values(|x: Contribution| x.spec_markers()) =~= inline@.take(
                    k as int,
                ).map_values(|x: Contribution| x.spec_markers()).push(inline@[k as int].spec_markers()));
                assert(markers@.map_values(|m: &[u8]| m@) =~= inline@.take(k + 1).map_values(
                    |x: Contribution| x.spec_markers(),
                ));
            }
            k += 1;
        }
        proof {
            assert(inline@.take(inline@.len() as int) =~= inline@);
        }
        let table = dispatch(markers.as_slice());
        let mut rows: Vec<Vec<usize>> = Vec::new();
        let mut c: usize = 0;
        while c < table.len()
            invariant
                0 <= c <= table@.len(),
                rows@.len() == c,
                forall|b: int| 0 <= b < c ==> (#[trigger] rows@[b])@ == table@[b]@,
            decreases table@.len() - c,
        {
            rows.push(table[c].clone());
            c += 1;
        }
        Ok(Grammar { definition: self, inline, block, text, dispatch: rows })
    }
}

impl Clone for GrammarBuilder {
    /// Another builder with the same plugins and rules.
    fn clone(&self) -> (r: Self)
        ensures
            r.spec_plugins() == self.spec_plugins(),
            r.spec_rules() == self.spec_rules(),
    {
        GrammarBuilder { plugins: copy_plugins(&self.plugins), rules: copy_entries(&self.rules) }
    }
}

/// A compiled grammar: the builder it came from, its rules by phase in
/// grammar order, and for every byte the inline rules tried at it.
pub struct Grammar {
    definition: GrammarBuilder,
    inline: Vec<Contribution>,
    block: Vec<Contribution>,
    text: Vec<Contribution>,
    dispatch: Vec<Vec<usize>>,
}

impl Grammar {
    /// The builder the grammar was compiled from.
    pub closed spec fn spec_definition(&self) -> GrammarBuilder {
        self.definition
    }

    /// The inline rules, in grammar order.
    pub closed spec fn spec_inline(&self) -> Seq<Contribution> {
        self.inline@
    }

    /// The block rules, in grammar order.
    pub closed spec fn spec_block(&self) -> Seq<Contribution> {
        self.block@
    }

    /// The text rules, in grammar order.
    pub closed spec fn spec_text(&self) -> Seq<Contribution> {
        self.text@
    }

    /// For every byte, the positions of the inline rules tried at it.
    pub closed spec fn spec_dispatch(&self) -> Seq<Seq<usize>> {
        self.dispatch@.map_values(|row: Vec<usize>| row@)
    }

    /// The plugins the grammar was built from, in order.
    pub fn plugins(&self) -> (r: &[Plugin])
        ensures
            r@ == self.spec_definition().spec_plugins(),
    {
        self.definition.plugins()
    }

    /// A builder holding the grammar's plugins and rules, to edit.
    pub fn to_builder(&self) -> (r: GrammarBuilder)
        ensures
            r.spec_plugins() == self.spec_definition().spec_plugins(),
            r.spec_rules() == self.spec_definition().spec_rules(),
    {
        let plugins = copy_plugins(&self.definition.plugins);
        let rules = copy_entries(&self.definition.rules);
        proof {
            assert(plugins@ =~= self.definition.plugins@);
            assert(rules@ =~= self.definition.rules@);
        }
        GrammarBuilder { plugins, rules }
    }

    /// The description of the composition the grammar was built from.
    pub fn describe(&self) -> (r: String)
        ensures
            r@ == join_lines(description_lines(self.spec_definition())),
    {
        self.definition.describe()
    }

    /// The inline rules, in grammar order.
    pub fn inline_rules(&self) -> (r: &[Contribution])
        ensures
            r@ == self.spec_inline(),
    {
        self.inline.as_slice()
    }

    /// The block rules, in grammar order.
    pub fn block_rules(&self) -> (r: &[Contribution])
        ensures
            r@ == self.spec_block(),
    {
        self.block.as_slice()
    }

    /// The text rules, in grammar order.
    pub fn text_rules(&self) -> (r: &[Contribution])
        ensures
            r@ == self.spec_text(),
    {
        self.text.as_slice()
    }

    /// The positions among the inline rules of those tried at `byte`.
    pub fn candidates(&self, byte: u8) -> (r: &[usize])
        requires
            self.spec_dispatch().len() == 256,
        ensures
            r@ == self.spec_dispatch()[byte as int],
    {
        self.dispatch[byte as usize].as_slice()
    }
}


} // verus!
