//! Declarative configurations that can be applied to an [`Engine`].
//!
//! A configuration lists the roles and the tags that are to exist, with the
//! rules of each tag. Applying it registers and unregisters what is needed
//! to get there; tag groups are registered as they are met.

use crate::engine::{entry_keys, lemma_entry_map, Engine};
use crate::error::{outcome, Error};
use crate::model::{
    first_match, lemma_first_match_at, lemma_first_match_none, other_than, Failure, Registry,
    Rules, TagRules,
};
use crate::tag::rules::clone_roles;
use crate::tag::{role_names, tag_names, Role, Tag, TemplateTagSpec};
use vstd::prelude::*;

verus! {

/// The rules of one tag, by names. A list that is left out stands for the
/// empty list.
#[derive(Debug, PartialEq, Eq)]
pub struct TagConfig {
    /// The name of the tag.
    pub name: String,
    /// All groups of which this tag is a member.
    pub groups: Option<Vec<String>>,
    /// The roles of which one is needed to apply or remove this tag.
    pub roles: Option<Vec<String>>,
    /// Which other tags or tag groups this tag requires.
    pub requires: Option<Vec<String>>,
    /// Which other tags or tag groups this tag conflicts with.
    pub conflicts_with: Option<Vec<String>>,
}

/// A configuration that can be applied to an [`Engine`].
#[derive(Debug, PartialEq, Eq)]
pub struct Configuration {
    /// A declaration of all roles.
    pub roles: Vec<String>,
    /// All tags, and their respective configuration.
    pub tags: Vec<TagConfig>,
}

// ---- what a configuration stands for ------------------------------------------

/// What a [`TagConfig`] stands for.
pub struct TagPlan {
    pub name: Seq<char>,
    pub groups: Seq<Seq<char>>,
    pub roles: Seq<Seq<char>>,
    pub required: Seq<Seq<char>>,
    pub conflicting: Seq<Seq<char>>,
}

/// What a [`Configuration`] stands for.
pub struct Plan {
    pub roles: Seq<Seq<char>>,
    pub tags: Seq<TagPlan>,
}

/// The names that a list of strings holds, in order.
pub open spec fn string_names(list: Seq<String>) -> Seq<Seq<char>> {
    list.map_values(|name: String| name@)
}

/// The names of a list that may have been left out.
pub open spec fn listed(list: Option<Vec<String>>) -> Seq<Seq<char>> {
    match list {
        Some(names) => string_names(names@),
        None => Seq::empty(),
    }
}

/// What a list of tag configurations stands for.
pub open spec fn tag_plans(configs: Seq<TagConfig>) -> Seq<TagPlan> {
    configs.map_values(|config: TagConfig| config@)
}

/// The names of the tags that are planned, in order.
pub open spec fn planned_names(plans: Seq<TagPlan>) -> Seq<Seq<char>> {
    plans.map_values(|plan: TagPlan| plan.name)
}

/// No name of the list is empty.
pub open spec fn all_named(names: Seq<Seq<char>>) -> bool {
    forall|i: int| 0 <= i < names.len() ==> (#[trigger] names[i]).len() > 0
}

impl View for TagConfig {
    type V = TagPlan;

    open spec fn view(&self) -> TagPlan {
        TagPlan {
            name: self.name@,
            groups: listed(self.groups),
            roles: listed(self.roles),
            required: listed(self.requires),
            conflicting: listed(self.conflicts_with),
        }
    }
}

impl View for Configuration {
    type V = Plan;

    open spec fn view(&self) -> Plan {
        Plan { roles: string_names(self.roles@), tags: tag_plans(self.tags@) }
    }
}

/// The names of a list, or none where the list was left out.
pub open spec fn written(list: Option<Vec<String>>) -> Option<Seq<Seq<char>>> {
    match list {
        Some(names) => Some(string_names(names@)),
        None => None,
    }
}

impl TagConfig {
    /// The two are written alike: the same name, and list by list the
    /// same names, or both without the list.
    pub open spec fn same_as(&self, other: &TagConfig) -> bool {
        &&& self.name@ == other.name@
        &&& written(self.groups) == written(other.groups)
        &&& written(self.roles) == written(other.roles)
        &&& written(self.requires) == written(other.requires)
        &&& written(self.conflicts_with) == written(other.conflicts_with)
    }
}

impl Configuration {
    /// The two are written alike: the same roles, and tag by tag the same
    /// configuration.
    pub open spec fn same_as(&self, other: &Configuration) -> bool {
        &&& string_names(self.roles@) == string_names(other.roles@)
        &&& self.tags@.len() == other.tags@.len()
        &&& forall|i: int|
            0 <= i < self.tags@.len() ==> (#[trigger] self.tags@[i]).same_as(&other.tags@[i])
    }
}

impl Clone for TagConfig {
    fn clone(&self) -> (copy: TagConfig)
        ensures
            copy.same_as(self),
            copy@ == self@,
    {
        TagConfig {
            name: self.name.clone(),
            groups: clone_names(&self.groups),
            roles: clone_names(&self.roles),
            requires: clone_names(&self.requires),
            conflicts_with: clone_names(&self.conflicts_with),
        }
    }
}

impl Clone for Configuration {
    fn clone(&self) -> (copy: Configuration)
        ensures
            copy.same_as(self),
            copy@ == self@,
    {
        let roles = self.roles.clone();
        let tags = self.tags.clone();
        proof {
            assert(string_names(roles@) =~= string_names(self.roles@));
            assert(tag_plans(tags@) =~= tag_plans(self.tags@));
        }
        Configuration { roles, tags }
    }
}

/// A list of the same names, or none where there is none.
fn clone_names(list: &Option<Vec<String>>) -> (copy: Option<Vec<String>>)
    ensures
        written(copy) == written(*list),
        listed(copy) == listed(*list),
{
    match list {
        None => None,
        Some(names) => {
            let copy = names.clone();
            assert(string_names(copy@) =~= string_names(names@));
            Some(copy)
        },
    }
}

impl TagPlan {
    /// The tag and its groups have names: they can be registered.
    pub open spec fn well_named(self) -> bool {
        self.name.len() > 0 && all_named(self.groups)
    }
}

impl Plan {
    /// Whatever the plan may register has a name: the roles, the tags and
    /// their groups.
    pub open spec fn well_named(self) -> bool {
        &&& all_named(self.roles)
        &&& forall|i: int| 0 <= i < self.tags.len() ==> (#[trigger] self.tags[i]).well_named()
    }
}

/// The names that are not in `dead`.
pub open spec fn outside(dead: Set<Seq<char>>) -> spec_fn(Seq<char>) -> bool {
    |name: Seq<char>| !dead.contains(name)
}

impl TagRules {
    /// The record with every requirement of and conflict with a name in
    /// `dead` struck out.
    pub open spec fn without_tags(self, dead: Set<Seq<char>>) -> TagRules {
        TagRules {
            rules: Rules {
                required_tags: self.rules.required_tags.filter(outside(dead)),
                conflicting_tags: self.rules.conflicting_tags.filter(outside(dead)),
                ..self.rules
            },
            ..self
        }
    }

    /// The record with every need of a role in `dead` struck out.
    pub open spec fn without_roles(self, dead: Set<Seq<char>>) -> TagRules {
        TagRules {
            rules: Rules {
                needed_roles: self.rules.needed_roles.filter(outside(dead)),
                ..self.rules
            },
            ..self
        }
    }
}

impl Registry {
    /// The names that are not registered as a tag or a group.
    pub open spec fn unregistered_tag(self) -> spec_fn(Seq<char>) -> bool {
        |name: Seq<char>| !self.tags.contains(name)
    }

    /// The registry after each role in `dead` was deleted.
    pub open spec fn delete_roles(self, dead: Set<Seq<char>>) -> Registry {
        Registry {
            specs: Map::new(
                |n: Seq<char>| self.specs.contains_key(n),
                |n: Seq<char>| self.specs[n].without_roles(dead),
            ),
            roles: self.roles.difference(dead),
            ..self
        }
    }

    /// The registry after each tag in `dead` was deleted.
    pub open spec fn delete_tags(self, dead: Set<Seq<char>>) -> Registry {
        Registry {
            specs: Map::new(
                |n: Seq<char>| self.specs.contains_key(n) && !dead.contains(n),
                |n: Seq<char>| self.specs[n].without_tags(dead),
            ),
            tags: self.tags.difference(dead),
            ..self
        }
    }

    /// The registry with the listed roles registered as well.
    pub open spec fn add_roles(self, names: Seq<Seq<char>>) -> Registry {
        Registry { roles: self.roles.union(names.to_set()), ..self }
    }

    /// The registry with the listed names registered as well, as groups
    /// where they were not registered.
    pub open spec fn add_groups(self, names: Seq<Seq<char>>) -> Registry {
        Registry { tags: self.tags.union(names.to_set()), ..self }
    }

    /// The registry with each listed name that was not registered made a
    /// proper tag without rules.
    pub open spec fn add_missing_tags(self, names: Seq<Seq<char>>) -> Registry {
        Registry {
            specs: Map::new(
                |n: Seq<char>|
                    self.specs.contains_key(n) || (names.contains(n) && !self.tags.contains(n)),
                |n: Seq<char>|
                    if names.contains(n) && !self.tags.contains(n) {
                        TagRules { tag: n, rules: Rules::none() }
                    } else {
                        self.specs[n]
                    },
            ),
            tags: self.tags.union(names.to_set()),
            ..self
        }
    }

    /// The roles are made to be the wanted ones: each registered role that
    /// is not wanted is deleted, and each wanted role is registered.
    pub open spec fn reconcile_roles(self, wanted: Seq<Seq<char>>) -> Registry {
        self.delete_roles(self.roles.difference(wanted.to_set())).add_roles(wanted)
    }

    /// The proper tags are made to be the wanted ones: each proper tag
    /// that is not wanted is deleted, and each wanted name that is not
    /// registered becomes a proper tag without rules. Groups stay.
    pub open spec fn reconcile_tags(self, wanted: Seq<Seq<char>>) -> Registry {
        self.delete_tags(self.specs.dom().difference(wanted.to_set())).add_missing_tags(wanted)
    }

    /// The registry with the rules kept under `name` replaced, the tag they
    /// are bound to left as it is.
    pub open spec fn with_rules(self, name: Seq<char>, rules: Rules) -> Registry {
        self.with_spec(name, TagRules { rules, ..self.specs[name] })
    }

    /// The rules of one planned tag are written over those it has.
    ///
    /// The lists are taken in turn: requirements, conflicts, groups, needed
    /// roles. Each name of the first two must be registered as a tag or a
    /// group, each name of the last as a role; a group that is not
    /// registered is registered on the way. The first name that is not
    /// found ends the update; the lists before it are written by then.
    pub open spec fn update_one(self, plan: TagPlan) -> (Registry, Result<(), Failure>) {
        if !self.tags.contains(plan.name) {
            (self, Err(Failure::NoSuchTag(plan.name)))
        } else if first_match(plan.required, self.unregistered_tag()) is Some {
            (self, Err(Failure::NoSuchTag(first_match(plan.required, self.unregistered_tag())->0)))
        } else if !self.specs.contains_key(plan.name) {
            (self, Err(Failure::MissingTag(plan.name)))
        } else {
            let first = self.with_rules(
                plan.name,
                Rules { required_tags: plan.required, ..self.specs[plan.name].rules },
            );
            if first_match(plan.conflicting, self.unregistered_tag()) is Some {
                (
                    first,
                    Err(
                        Failure::NoSuchTag(
                            first_match(plan.conflicting, self.unregistered_tag())->0,
                        ),
                    ),
                )
            } else {
                let second = first.with_rules(
                    plan.name,
                    Rules { conflicting_tags: plan.conflicting, ..first.specs[plan.name].rules },
                );
                let third = second.add_groups(plan.groups).with_rules(
                    plan.name,
                    Rules { groups: plan.groups, ..second.specs[plan.name].rules },
                );
                if first_match(plan.roles, self.unknown_role()) is Some {
                    (
                        third,
                        Err(Failure::NoSuchRole(first_match(plan.roles, self.unknown_role())->0)),
                    )
                } else {
                    (
                        third.with_rules(
                            plan.name,
                            Rules { needed_roles: plan.roles, ..third.specs[plan.name].rules },
                        ),
                        Ok(()),
                    )
                }
            }
        }
    }

    /// The planned tags are updated one after the other, until one of the
    /// updates fails.
    pub open spec fn update_all(self, plans: Seq<TagPlan>) -> (Registry, Result<(), Failure>)
        decreases plans.len(),
    {
        if plans.len() == 0 {
            (self, Ok(()))
        } else {
            let step = self.update_one(plans[0]);
            if step.1 is Err {
                step
            } else {
                step.0.update_all(plans.drop_first())
            }
        }
    }

    /// The registry is made to match the plan: first the roles, then the
    /// proper tags, then the rules of each planned tag.
    pub open spec fn reconcile(self, plan: Plan) -> (Registry, Result<(), Failure>) {
        self.reconcile_roles(plan.roles).reconcile_tags(planned_names(plan.tags)).update_all(
            plan.tags,
        )
    }
}

// ---- how deletions add up -----------------------------------------------------

/// Filtering twice is filtering once by both.
proof fn lemma_filter_twice<A>(
    s: Seq<A>,
    p: spec_fn(A) -> bool,
    q: spec_fn(A) -> bool,
    both: spec_fn(A) -> bool,
)
    requires
        forall|a: A| #[trigger] both(a) == (p(a) && q(a)),
    ensures
        s.filter(p).filter(q) == s.filter(both),
    decreases s.len(),
{
    reveal(Seq::filter);
    if s.len() > 0 {
        let front = s.drop_last();
        lemma_filter_twice(front, p, q, both);
        assert(s =~= front.push(s.last()));
        front.lemma_filter_push(s.last(), p);
        front.lemma_filter_push(s.last(), both);
        if p(s.last()) {
            front.filter(p).lemma_filter_push(s.last(), q);
        }
    } else {
        assert(s.filter(p) =~= s);
    }
}

/// Filtering by what holds of everything changes nothing.
proof fn lemma_filter_all<A>(s: Seq<A>, p: spec_fn(A) -> bool)
    requires
        forall|a: A| #[trigger] p(a),
    ensures
        s.filter(p) == s,
    decreases s.len(),
{
    reveal(Seq::filter);
    if s.len() > 0 {
        let front = s.drop_last();
        lemma_filter_all(front, p);
        assert(s =~= front.push(s.last()));
        front.lemma_filter_push(s.last(), p);
    }
}

/// Deleting no role changes nothing.
proof fn lemma_delete_no_roles(registry: Registry)
    ensures
        registry.delete_roles(Set::empty()) == registry,
{
    let after = registry.delete_roles(Set::empty());
    assert forall|n: Seq<char>| registry.specs.contains_key(n) implies #[trigger] after.specs[n]
        == registry.specs[n] by {
        lemma_filter_all(registry.specs[n].rules.needed_roles, outside(Set::empty()));
    }
    assert(after.specs =~= registry.specs);
    assert(after.roles =~= registry.roles);
}

/// Deleting one more role.
proof fn lemma_delete_one_more_role(registry: Registry, dead: Set<Seq<char>>, name: Seq<char>)
    ensures
        registry.delete_roles(dead).delete_role(name) == registry.delete_roles(dead.insert(name)),
{
    let step = registry.delete_roles(dead).delete_role(name);
    let once = registry.delete_roles(dead.insert(name));
    assert forall|n: Seq<char>| registry.specs.contains_key(n) implies #[trigger] step.specs[n]
        == once.specs[n] by {
        lemma_filter_twice(
            registry.specs[n].rules.needed_roles,
            outside(dead),
            other_than(name),
            outside(dead.insert(name)),
        );
    }
    assert(step.specs =~= once.specs);
    assert(step.roles =~= once.roles);
}

/// Deleting no tag changes nothing.
proof fn lemma_delete_no_tags(registry: Registry)
    ensures
        registry.delete_tags(Set::empty()) == registry,
{
    let after = registry.delete_tags(Set::empty());
    assert forall|n: Seq<char>| registry.specs.contains_key(n) implies #[trigger] after.specs[n]
        == registry.specs[n] by {
        lemma_filter_all(registry.specs[n].rules.required_tags, outside(Set::empty()));
        lemma_filter_all(registry.specs[n].rules.conflicting_tags, outside(Set::empty()));
    }
    assert(after.specs =~= registry.specs);
    assert(after.tags =~= registry.tags);
}

/// Deleting one more tag.
proof fn lemma_delete_one_more_tag(registry: Registry, dead: Set<Seq<char>>, name: Seq<char>)
    ensures
        registry.delete_tags(dead).delete_tag(name) == registry.delete_tags(dead.insert(name)),
{
    let step = registry.delete_tags(dead).delete_tag(name);
    let once = registry.delete_tags(dead.insert(name));
    assert forall|n: Seq<char>| #[trigger]
        once.specs.contains_key(n) implies step.specs[n] == once.specs[n] by {
        lemma_filter_twice(
            registry.specs[n].rules.required_tags,
            outside(dead),
            other_than(name),
            outside(dead.insert(name)),
        );
        lemma_filter_twice(
            registry.specs[n].rules.conflicting_tags,
            outside(dead),
            other_than(name),
            outside(dead.insert(name)),
        );
    }
    assert(step.specs =~= once.specs);
    assert(step.tags =~= once.tags);
}

// ---- applying a configuration -------------------------------------------------

/// Whether the name is in the list.
fn has_name(list: &Vec<String>, name: &String) -> (found: bool)
    ensures
        found == string_names(list@).contains(name@),
{
    let mut i: usize = 0;
    while i < list.len()
        invariant
            0 <= i <= list.len(),
            forall|j: int| 0 <= j < i ==> string_names(list@)[j] != name@,
        decreases list.len() - i,
    {
        if list[i] == *name {
            assert(string_names(list@)[i as int] == name@);
            return true;
        }
        i += 1;
    }
    false
}

/// Whether a tag of that name is planned.
fn is_planned(configs: &Vec<TagConfig>, name: &String) -> (found: bool)
    ensures
        found == planned_names(tag_plans(configs@)).contains(name@),
{
    let ghost names = planned_names(tag_plans(configs@));
    let mut i: usize = 0;
    while i < configs.len()
        invariant
            0 <= i <= configs.len(),
            names == planned_names(tag_plans(configs@)),
            forall|j: int| 0 <= j < i ==> names[j] != name@,
        decreases configs.len() - i,
    {
        assert(names[i as int] == configs@[i as int].name@);
        if configs[i].name == *name {
            return true;
        }
        i += 1;
    }
    false
}

impl Configuration {
    /// Makes the roles of the engine those of the list: each registered
    /// role that is not listed is deleted, each listed role is registered.
    fn apply_roles(roles: &Vec<String>, engine: &mut Engine)
        requires
            old(engine).wf(),
            all_named(string_names(roles@)),
        ensures
            final(engine).wf(),
            final(engine)@ == old(engine)@.reconcile_roles(string_names(roles@)),
    {
        let ghost wanted = string_names(roles@);
        let ghost start = engine@;
        let extant = clone_roles(engine.get_roles());
        let ghost extant_names = role_names(extant@);
        let ghost mut dead: Set<Seq<char>> = Set::empty();
        proof {
            lemma_delete_no_roles(start);
        }

        // Remove old roles
        let mut i: usize = 0;
        while i < extant.len()
            invariant
                0 <= i <= extant.len(),
                engine.wf(),
                extant_names == role_names(extant@),
                wanted == string_names(roles@),
                engine@ == start.delete_roles(dead),
                forall|n: Seq<char>|
                    dead.contains(n) <==> extant_names.take(i as int).contains(n)
                        && !wanted.contains(n),
            decreases extant.len() - i,
        {
            let name = extant[i].to_string();
            assert(extant_names[i as int] == name@);
            proof {
                extant_names.lemma_take_succ_push(i as int);
            }
            if !has_name(roles, &name) {
                engine.delete_role(&extant[i]);
                proof {
                    lemma_delete_one_more_role(start, dead, name@);
                    dead = dead.insert(name@);
                }
            }
            proof {
                assert forall|n: Seq<char>|
                    dead.contains(n) <==> extant_names.take(i + 1).contains(n) && !wanted.contains(
                        n,
                    ) by {
                    let before = extant_names.take(i as int);
                    let after = extant_names.take(i + 1);
                    assert(after =~= before.push(name@));
                    if before.contains(n) {
                        let j = choose|j: int| 0 <= j < before.len() && before[j] == n;
                        assert(after[j] == n);
                    }
                    if after.contains(n) && n != name@ {
                        let j = choose|j: int| 0 <= j < after.len() && after[j] == n;
                        assert(before[j] == n);
                    }
                    if n == name@ {
                        assert(after[i as int] == n);
                    }
                }
            }
            i += 1;
        }
        proof {
            assert(extant_names.take(i as int) =~= extant_names);
            assert(dead =~= start.roles.difference(wanted.to_set()));
        }
        let ghost cleared = engine@;
        proof {
            assert(wanted.take(0) =~= Seq::empty());
            assert(cleared.add_roles(wanted.take(0)).roles =~= cleared.roles);
        }

        // Add new roles
        let mut k: usize = 0;
        while k < roles.len()
            invariant
                0 <= k <= roles.len(),
                engine.wf(),
                wanted == string_names(roles@),
                all_named(wanted),
                engine@ == cleared.add_roles(wanted.take(k as int)),
            decreases roles.len() - k,
        {
            let name = roles[k].as_str();
            assert(wanted[k as int] == name@);
            if !engine.has_role(name) {
                engine.add_role(name);
            }
            proof {
                let before = wanted.take(k as int);
                let after = wanted.take(k + 1);
                assert(after =~= before.push(name@));
                assert forall|n: Seq<char>| after.contains(n) <==> before.contains(n) || n
                    == name@ by {
                    if before.contains(n) {
                        let j = choose|j: int| 0 <= j < before.len() && before[j] == n;
                        assert(after[j] == n);
                    }
                    if after.contains(n) && n != name@ {
                        let j = choose|j: int| 0 <= j < after.len() && after[j] == n;
                        assert(before[j] == n);
                    }
                    if n == name@ {
                        assert(after[k as int] == n);
                    }
                }
                assert(engine@.roles =~= cleared.add_roles(after).roles);
            }
            k += 1;
        }
        proof {
            assert(wanted.take(k as int) =~= wanted);
        }
    }

    /// Makes the proper tags of the engine those that are planned: each
    /// proper tag that is not planned is deleted, each planned name that is
    /// not registered becomes a proper tag without rules.
    fn apply_tags(tags: &Vec<TagConfig>, engine: &mut Engine)
        requires
            old(engine).wf(),
            all_named(planned_names(tag_plans(tags@))),
        ensures
            final(engine).wf(),
            final(engine)@ == old(engine)@.reconcile_tags(planned_names(tag_plans(tags@))),
    {
        let ghost wanted = planned_names(tag_plans(tags@));
        let ghost start = engine@;
        let mut extant: Vec<Tag> = Vec::new();
        let specs = engine.get_specs();
        let ghost keys = entry_keys(specs@);
        let mut h: usize = 0;
        while h < specs.len()
            invariant
                0 <= h <= specs.len(),
                keys == entry_keys(specs@),
                tag_names(extant@) == keys.take(h as int),
            decreases specs.len() - h,
        {
            let ghost before = tag_names(extant@);
            extant.push(specs[h].0.clone());
            proof {
                assert(tag_names(extant@) =~= before.push(keys[h as int]));
                keys.lemma_take_succ_push(h as int);
            }
            h += 1;
        }
        let ghost mut dead: Set<Seq<char>> = Set::empty();
        proof {
            assert(keys.take(h as int) =~= keys);
            lemma_entry_map(specs@);
            lemma_delete_no_tags(start);
        }

        // Remove old tags
        let mut i: usize = 0;
        while i < extant.len()
            invariant
                0 <= i <= extant.len(),
                engine.wf(),
                keys == tag_names(extant@),
                wanted == planned_names(tag_plans(tags@)),
                engine@ == start.delete_tags(dead),
                forall|n: Seq<char>|
                    dead.contains(n) <==> keys.take(i as int).contains(n) && !wanted.contains(n),
            decreases extant.len() - i,
        {
            let name = extant[i].to_string();
            assert(keys[i as int] == name@);
            if !is_planned(tags, &name) {
                engine.delete_tag(&extant[i]);
                proof {
                    lemma_delete_one_more_tag(start, dead, name@);
                    dead = dead.insert(name@);
                }
            }
            proof {
                assert forall|n: Seq<char>|
                    dead.contains(n) <==> keys.take(i + 1).contains(n) && !wanted.contains(n) by {
                    let before = keys.take(i as int);
                    let after = keys.take(i + 1);
                    assert(after =~= before.push(name@));
                    if before.contains(n) {
                        let j = choose|j: int| 0 <= j < before.len() && before[j] == n;
                        assert(after[j] == n);
                    }
                    if after.contains(n) && n != name@ {
                        let j = choose|j: int| 0 <= j < after.len() && after[j] == n;
                        assert(before[j] == n);
                    }
                    if n == name@ {
                        assert(after[i as int] == n);
                    }
                }
            }
            i += 1;
        }
        proof {
            assert(keys.take(i as int) =~= keys);
            assert(dead =~= start.specs.dom().difference(wanted.to_set()));
        }
        let ghost cleared = engine@;
        proof {
            assert(wanted.take(0) =~= Seq::empty());
            assert(cleared.add_missing_tags(wanted.take(0)).specs =~= cleared.specs);
            assert(cleared.add_missing_tags(wanted.take(0)).tags =~= cleared.tags);
        }

        // Add new tags
        let mut k: usize = 0;
        while k < tags.len()
            invariant
                0 <= k <= tags.len(),
                engine.wf(),
                wanted == planned_names(tag_plans(tags@)),
                all_named(wanted),
                engine@ == cleared.add_missing_tags(wanted.take(k as int)),
            decreases tags.len() - k,
        {
            let name = tags[k].name.as_str();
            assert(wanted[k as int] == name@);
            if !engine.has_tag(name) {
                engine.add_tag(name, TemplateTagSpec::default());
            }
            proof {
                let before = wanted.take(k as int);
                let after = wanted.take(k + 1);
                assert(after =~= before.push(name@));
                assert forall|n: Seq<char>| after.contains(n) <==> before.contains(n) || n
                    == name@ by {
                    if before.contains(n) {
                        let j = choose|j: int| 0 <= j < before.len() && before[j] == n;
                        assert(after[j] == n);
                    }
                    if after.contains(n) && n != name@ {
                        let j = choose|j: int| 0 <= j < after.len() && after[j] == n;
                        assert(before[j] == n);
                    }
                    if n == name@ {
                        assert(after[k as int] == n);
                    }
                }
                assert(engine@.tags =~= cleared.add_missing_tags(after).tags);
                assert(engine@.specs =~= cleared.add_missing_tags(after).specs);
            }
            k += 1;
        }
        proof {
            assert(wanted.take(k as int) =~= wanted);
        }
    }

    /// Writes the rules of each planned tag over those it has, one tag
    /// after the other, until a name is not found.
    fn update_tags(configs: &Vec<TagConfig>, engine: &mut Engine) -> (result: Result<(), Error>)
        requires
            old(engine).wf(),
            forall|i: int| 0 <= i < configs@.len() ==> (#[trigger] configs@[i])@.well_named(),
        ensures
            final(engine).wf(),
            (final(engine)@, outcome(result)) == old(engine)@.update_all(tag_plans(configs@)),
    {
        let ghost plans = tag_plans(configs@);
        let ghost start = engine@;
        proof {
            assert(plans.skip(0) =~= plans);
        }
        let mut i: usize = 0;
        while i < configs.len()
            invariant
                0 <= i <= configs.len(),
                engine.wf(),
                plans == tag_plans(configs@),
                start == old(engine)@,
                forall|j: int| 0 <= j < configs@.len() ==> (#[trigger] configs@[j])@.well_named(),
                start.update_all(plans) == engine@.update_all(plans.skip(i as int)),
            decreases configs.len() - i,
        {
            let ghost before = engine@;
            proof {
                let rest = plans.skip(i as int);
                let step = before.update_one(rest[0]);
                assert(rest[0] == configs@[i as int]@);
                assert(rest.drop_first() =~= plans.skip(i + 1));
                assert(before.update_all(rest) == if step.1 is Err {
                    step
                } else {
                    step.0.update_all(rest.drop_first())
                });
            }
            match update_tag(&configs[i], engine) {
                Err(error) => {
                    return Err(error);
                },
                Ok(()) => {},
            }
            i += 1;
        }
        Ok(())
    }

    /// Whether whatever the configuration may register has a name: the
    /// roles, the tags and their groups.
    pub fn is_well_named(&self) -> (named: bool)
        ensures
            named == self@.well_named(),
    {
        if !all_have_names(&self.roles) {
            return false;
        }
        let mut i: usize = 0;
        while i < self.tags.len()
            invariant
                0 <= i <= self.tags.len(),
                forall|j: int| 0 <= j < i ==> (#[trigger] self@.tags[j]).well_named(),
            decreases self.tags.len() - i,
        {
            let config = &self.tags[i];
            assert(self@.tags[i as int] == config@);
            let groups_named = match &config.groups {
                Some(groups) => all_have_names(groups),
                None => true,
            };
            if config.name.as_str().is_empty() || !groups_named {
                return false;
            }
            i += 1;
        }
        true
    }

    /// Applies the configuration to the engine.
    ///
    /// First the roles of the engine are made those of the configuration,
    /// then its proper tags, then the rules of each configured tag are
    /// written over those it has. Tag groups are not declared: a group
    /// that a tag names is registered when it is met, and none is ever
    /// deleted here.
    ///
    /// A required or conflicting name that is not registered, or a role
    /// that is not, ends the work with an error; what was done until then
    /// stays done.
    pub fn apply(self, engine: &mut Engine) -> (result: Result<(), Error>)
        requires
            old(engine).wf(),
            self@.well_named(),
        ensures
            final(engine).wf(),
            (final(engine)@, outcome(result)) == old(engine)@.reconcile(self@),
    {
        proof {
            assert forall|i: int| 0 <= i < self.tags@.len() implies (
            #[trigger] self.tags@[i])@.well_named() by {
                assert(self@.tags[i].well_named());
            }
            assert forall|i: int| 0 <= i < self.tags@.len() implies (#[trigger] planned_names(
                tag_plans(self.tags@),
            )[i]).len() > 0 by {
                assert(self@.tags[i].well_named());
            }
        }
        let Configuration { roles, tags } = self;
        Self::apply_roles(&roles, engine);
        Self::apply_tags(&tags, engine);
        Self::update_tags(&tags, engine)
    }
}

/// Whether no name of the list is empty.
fn all_have_names(list: &Vec<String>) -> (named: bool)
    ensures
        named == all_named(string_names(list@)),
{
    let mut i: usize = 0;
    while i < list.len()
        invariant
            0 <= i <= list.len(),
            forall|j: int| 0 <= j < i ==> (#[trigger] string_names(list@)[j]).len() > 0,
        decreases list.len() - i,
    {
        assert(string_names(list@)[i as int] == list@[i as int]@);
        if list[i].as_str().is_empty() {
            return false;
        }
        i += 1;
    }
    true
}

/// The registered tags or groups of the listed names, if each of the names
/// is registered; else the first name that is not.
fn resolve_tags(engine: &Engine, names: &Option<Vec<String>>) -> (result: Result<Vec<Tag>, Error>)
    requires
        engine.wf(),
    ensures
        match result {
            Ok(tags) => first_match(listed(*names), engine@.unregistered_tag()) is None
                && tag_names(tags@) == listed(*names),
            Err(error) => first_match(listed(*names), engine@.unregistered_tag()) is Some
                && error@ == Failure::NoSuchTag(
                first_match(listed(*names), engine@.unregistered_tag())->0,
            ),
        },
{
    let ghost wanted = listed(*names);
    let mut tags: Vec<Tag> = Vec::new();
    match names {
        None => {
            proof {
                lemma_first_match_none(wanted, engine@.unregistered_tag());
                assert(tag_names(tags@) =~= wanted);
            }
        },
        Some(list) => {
            let mut i: usize = 0;
            while i < list.len()
                invariant
                    0 <= i <= list.len(),
                    engine.wf(),
                    wanted == string_names(list@),
                    wanted == listed(*names),
                    tag_names(tags@) == wanted.take(i as int),
                    forall|j: int| 0 <= j < i ==> engine@.tags.contains(#[trigger] wanted[j]),
                decreases list.len() - i,
            {
                let ghost before = tag_names(tags@);
                assert(wanted[i as int] == list@[i as int]@);
                match engine.get_tag(list[i].as_str()) {
                    Err(error) => {
                        proof {
                            assert forall|j: int| 0 <= j < i implies !(
                            engine@.unregistered_tag())(#[trigger] wanted[j]) by {}
                            lemma_first_match_at(wanted, engine@.unregistered_tag(), i as int);
                        }
                        return Err(error);
                    },
                    Ok(tag) => {
                        tags.push(tag);
                    },
                }
                proof {
                    assert(tag_names(tags@) =~= before.push(wanted[i as int]));
                    wanted.lemma_take_succ_push(i as int);
                }
                i += 1;
            }
            proof {
                assert(wanted.take(i as int) =~= wanted);
                assert forall|j: int| 0 <= j < wanted.len() implies !(engine@.unregistered_tag())(
                    #[trigger] wanted[j],
                ) by {}
                lemma_first_match_none(wanted, engine@.unregistered_tag());
            }
        },
    }
    Ok(tags)
}

/// The registered roles of the listed names, if each of the names is
/// registered; else the first name that is not.
fn resolve_roles(engine: &Engine, names: &Option<Vec<String>>) -> (result: Result<
    Vec<Role>,
    Error,
>)
    requires
        engine.wf(),
    ensures
        match result {
            Ok(roles) => first_match(listed(*names), engine@.unknown_role()) is None
                && role_names(roles@) == listed(*names),
            Err(error) => first_match(listed(*names), engine@.unknown_role()) is Some && error@
                == Failure::NoSuchRole(first_match(listed(*names), engine@.unknown_role())->0),
        },
{
    let ghost wanted = listed(*names);
    let mut roles: Vec<Role> = Vec::new();
    match names {
        None => {
            proof {
                lemma_first_match_none(wanted, engine@.unknown_role());
                assert(role_names(roles@) =~= wanted);
            }
        },
        Some(list) => {
            let mut i: usize = 0;
            while i < list.len()
                invariant
                    0 <= i <= list.len(),
                    engine.wf(),
                    wanted == string_names(list@),
                    wanted == listed(*names),
                    role_names(roles@) == wanted.take(i as int),
                    forall|j: int| 0 <= j < i ==> engine@.roles.contains(#[trigger] wanted[j]),
                decreases list.len() - i,
            {
                let ghost before = role_names(roles@);
                assert(wanted[i as int] == list@[i as int]@);
                match engine.get_role(list[i].as_str()) {
                    Err(error) => {
                        proof {
                            assert forall|j: int| 0 <= j < i implies !(engine@.unknown_role())(
                                #[trigger] wanted[j],
                            ) by {}
                            lemma_first_match_at(wanted, engine@.unknown_role(), i as int);
                        }
                        return Err(error);
                    },
                    Ok(role) => {
                        roles.push(role);
                    },
                }
                proof {
                    assert(role_names(roles@) =~= before.push(wanted[i as int]));
                    wanted.lemma_take_succ_push(i as int);
                }
                i += 1;
            }
            proof {
                assert(wanted.take(i as int) =~= wanted);
                assert forall|j: int| 0 <= j < wanted.len() implies !(engine@.unknown_role())(
                    #[trigger] wanted[j],
                ) by {}
                lemma_first_match_none(wanted, engine@.unknown_role());
            }
        },
    }
    Ok(roles)
}

/// The tags or groups of the listed names; a name that is not registered
/// is registered as a group.
fn register_groups(engine: &mut Engine, names: &Option<Vec<String>>) -> (groups: Vec<Tag>)
    requires
        old(engine).wf(),
        all_named(listed(*names)),
    ensures
        final(engine).wf(),
        final(engine)@ == old(engine)@.add_groups(listed(*names)),
        tag_names(groups@) == listed(*names),
{
    let ghost wanted = listed(*names);
    let ghost start = engine@;
    let mut groups: Vec<Tag> = Vec::new();
    match names {
        None => {
            proof {
                assert(tag_names(groups@) =~= wanted);
                assert(start.add_groups(wanted).tags =~= start.tags);
            }
        },
        Some(list) => {
            proof {
                assert(wanted.take(0) =~= Seq::empty());
                assert(start.add_groups(wanted.take(0)).tags =~= start.tags);
            }
            let mut i: usize = 0;
            while i < list.len()
                invariant
                    0 <= i <= list.len(),
                    engine.wf(),
                    wanted == string_names(list@),
                    all_named(wanted),
                    tag_names(groups@) == wanted.take(i as int),
                    engine@ == start.add_groups(wanted.take(i as int)),
                decreases list.len() - i,
            {
                let ghost before = tag_names(groups@);
                let name = list[i].as_str();
                assert(wanted[i as int] == name@);
                let group = match engine.get_tag(name) {
                    Ok(group) => group,
                    Err(_) => engine.add_group(name),
                };
                groups.push(group);
                proof {
                    let taken = wanted.take(i as int);
                    let after = wanted.take(i + 1);
                    assert(tag_names(groups@) =~= before.push(name@));
                    assert(after =~= taken.push(name@));
                    assert forall|n: Seq<char>| after.contains(n) <==> taken.contains(n) || n
                        == name@ by {
                        if taken.contains(n) {
                            let j = choose|j: int| 0 <= j < taken.len() && taken[j] == n;
                            assert(after[j] == n);
                        }
                        if after.contains(n) && n != name@ {
                            let j = choose|j: int| 0 <= j < after.len() && after[j] == n;
                            assert(taken[j] == n);
                        }
                        if n == name@ {
                            assert(after[i as int] == n);
                        }
                    }
                    assert(engine@.tags =~= start.add_groups(after).tags);
                }
                i += 1;
            }
            proof {
                assert(wanted.take(i as int) =~= wanted);
            }
        },
    }
    groups
}

/// Writes the rules of one planned tag over those it has.
fn update_tag(config: &TagConfig, engine: &mut Engine) -> (result: Result<(), Error>)
    requires
        old(engine).wf(),
        config@.well_named(),
    ensures
        final(engine).wf(),
        (final(engine)@, outcome(result)) == old(engine)@.update_one(config@),
{
    let ghost start = engine@;
    let ghost plan = config@;
    let current_tag = match engine.get_tag(config.name.as_str()) {
        Err(error) => {
            return Err(error);
        },
        Ok(tag) => tag,
    };

    // Update required_tags
    let required_tags = match resolve_tags(engine, &config.requires) {
        Err(error) => {
            return Err(error);
        },
        Ok(tags) => tags,
    };
    match engine.get_spec_mut(&current_tag) {
        Err(error) => {
            return Err(error);
        },
        Ok(spec) => {
            spec.set_required_tags(required_tags);
        },
    }
    let ghost first = engine@;
    assert(first == start.with_rules(
        plan.name,
        Rules { required_tags: plan.required, ..start.specs[plan.name].rules },
    ));

    // Update conflicting_tags
    let conflicting_tags = match resolve_tags(engine, &config.conflicts_with) {
        Err(error) => {
            proof {
                assert(first.unregistered_tag() == start.unregistered_tag());
            }
            return Err(error);
        },
        Ok(tags) => tags,
    };
    match engine.get_spec_mut(&current_tag) {
        Err(error) => {
            return Err(error);
        },
        Ok(spec) => {
            spec.set_conflicting_tags(conflicting_tags);
        },
    }
    let ghost second = engine@;

    // Update groups
    let new_groups = register_groups(engine, &config.groups);
    match engine.get_spec_mut(&current_tag) {
        Err(error) => {
            return Err(error);
        },
        Ok(spec) => {
            spec.set_groups(new_groups);
        },
    }
    let ghost third = engine@;

    // Update roles
    let needed_roles = match resolve_roles(engine, &config.roles) {
        Err(error) => {
            proof {
                assert(third.unknown_role() == start.unknown_role());
            }
            return Err(error);
        },
        Ok(roles) => roles,
    };
    match engine.get_spec_mut(&current_tag) {
        Err(error) => {
            return Err(error);
        },
        Ok(spec) => {
            spec.set_needed_roles(needed_roles);
        },
    }
    proof {
        assert(first.unregistered_tag() == start.unregistered_tag());
        assert(third.unknown_role() == start.unknown_role());
    }
    Ok(())
}

} // verus!
