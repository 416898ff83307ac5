//! What holds of every registry and every tagset.
//!
//! Each statement is about the model of [`crate::model`], in which the
//! contracts of the engine are written: what is proved here of
//! `Registry::validate` holds of `Engine::check_tag_changes`, and so on.

use crate::load::{all_named, planned_names, Plan, TagPlan};
use crate::engine::Engine;
use crate::model::{
    all_stay, failed, first_failure, first_match, lemma_first_match_at, lemma_first_match_found,
    lemma_first_match_none, other_than, overlap, Failure, Registry, Rules, TagRules,
    BOTH_ADDED_AND_REMOVED,
};
use vstd::prelude::*;

verus! {

// ---- tagsets ------------------------------------------------------------------

/// The empty tagset is valid in any registry, and so is the change that
/// adds and removes nothing to it without any role.
pub proof fn lemma_empty_tagset_is_valid(registry: Registry)
    ensures
        registry.validate(Seq::empty(), Seq::empty(), Seq::empty(), Seq::empty()) == Ok::<
            (),
            Failure,
        >(()),
{
    let none = Seq::<Seq<char>>::empty();
    lemma_first_match_none(none, registry.unknown_role());
    assert(!overlap(none, none));
    lemma_first_match_none(registry.verdicts(none, none, none, none), failed());
}

/// A role that is held but not registered is reported before anything else:
/// whatever the tags, the verdict is that a role is missing, and the role
/// named is the first one held that is not registered.
pub proof fn lemma_unregistered_role_comes_first(
    registry: Registry,
    tags: Seq<Seq<char>>,
    added: Seq<Seq<char>>,
    removed: Seq<Seq<char>>,
    held: Seq<Seq<char>>,
    i: int,
) -> (first: int)
    requires
        0 <= i < held.len(),
        !registry.roles.contains(held[i]),
    ensures
        0 <= first <= i,
        !registry.roles.contains(held[first]),
        forall|j: int| 0 <= j < first ==> registry.roles.contains(#[trigger] held[j]),
        registry.validate(tags, added, removed, held) == Err::<(), Failure>(
            Failure::MissingRole(held[first]),
        ),
{
    held.lemma_filter_contains(registry.unknown_role(), i);
    let first = lemma_first_match_found(held, registry.unknown_role());
    if first > i {
        assert(!(registry.unknown_role())(held[i]));
    }
    assert forall|j: int| 0 <= j < first implies registry.roles.contains(#[trigger] held[j]) by {
        assert(!(registry.unknown_role())(held[j]));
    }
    first
}

/// With every held role registered, a change that adds and removes one tag
/// is refused as such, whatever else is wrong with it.
pub proof fn lemma_overlap_comes_before_tags(
    registry: Registry,
    tags: Seq<Seq<char>>,
    added: Seq<Seq<char>>,
    removed: Seq<Seq<char>>,
    held: Seq<Seq<char>>,
)
    requires
        forall|i: int| 0 <= i < held.len() ==> registry.roles.contains(#[trigger] held[i]),
        overlap(added, removed),
    ensures
        registry.validate(tags, added, removed, held) == Err::<(), Failure>(
            Failure::Other(BOTH_ADDED_AND_REMOVED@),
        ),
{
    lemma_first_match_none(held, registry.unknown_role());
}

/// No requirement and no conflict fails for want of a role.
proof fn lemma_rules_never_ask_for_roles(
    registry: Registry,
    spec: TagRules,
    tags: Seq<Seq<char>>,
    added: Seq<Seq<char>>,
    removed: Seq<Seq<char>>,
)
    ensures
        !(first_failure(registry.rule_outcomes(spec, tags, added, removed)) matches Err(
            Failure::MissingRoles(_),
        )),
{
    let outcomes = registry.rule_outcomes(spec, tags, added, removed);
    if first_match(outcomes, failed()) is Some {
        let i = lemma_first_match_found(outcomes, failed());
        let required = spec.rules.required_tags;
        if i < required.len() {
            assert(outcomes[i] == registry.requirement(spec, required[i], tags, added, removed));
        } else {
            let conflicting = spec.rules.conflicting_tags;
            assert(outcomes[i] == registry.conflict(
                spec,
                conflicting[i - required.len()],
                tags,
                added,
                removed,
            ));
        }
    }
}

/// The role gate is for changed tags only: the verdict of the rules of a tag
/// that is neither added nor removed does not depend on the roles held, and
/// is never that roles are missing.
pub proof fn lemma_role_gate_only_on_changes(
    registry: Registry,
    spec: TagRules,
    tags: Seq<Seq<char>>,
    added: Seq<Seq<char>>,
    removed: Seq<Seq<char>>,
    held: Seq<Seq<char>>,
    other: Seq<Seq<char>>,
)
    requires
        !added.contains(spec.tag),
        !removed.contains(spec.tag),
    ensures
        registry.verdict(spec, tags, added, removed, held) == registry.verdict(
            spec,
            tags,
            added,
            removed,
            other,
        ),
        !(registry.verdict(spec, tags, added, removed, held) matches Err(
            Failure::MissingRoles(_),
        )),
{
    lemma_rules_never_ask_for_roles(registry, spec, tags, added, removed);
}

/// Where no tag of the current tagset is added or removed, no role is
/// asked for: whatever the tags need, the verdict on the change is never
/// that roles are missing.
pub proof fn lemma_tags_that_stay_need_no_role(
    registry: Registry,
    tags: Seq<Seq<char>>,
    added: Seq<Seq<char>>,
    removed: Seq<Seq<char>>,
    held: Seq<Seq<char>>,
)
    requires
        registry.bound(),
        all_stay(tags, added, removed),
    ensures
        !(registry.validate(tags, added, removed, held) matches Err(Failure::MissingRoles(_))),
{
    let verdicts = registry.verdicts(tags, added, removed, held);
    if first_match(held, registry.unknown_role()) is None && !overlap(added, removed)
        && first_match(verdicts, failed()) is Some {
        let i = lemma_first_match_found(verdicts, failed());
        assert(verdicts[i] == registry.verdict_on(tags[i], tags, added, removed, held));
        if registry.specs.contains_key(tags[i]) {
            lemma_role_gate_only_on_changes(
                registry,
                registry.specs[tags[i]],
                tags,
                added,
                removed,
                held,
                held,
            );
        }
    }
}

/// A name that is being removed counts for nothing.
pub proof fn lemma_removed_counts_for_nothing(
    registry: Registry,
    name: Seq<char>,
    tags: Seq<Seq<char>>,
    added: Seq<Seq<char>>,
    removed: Seq<Seq<char>>,
)
    requires
        removed.contains(name),
    ensures
        registry.effective_count(name, tags, added, removed) == Ok::<nat, Failure>(0),
{
}

/// What a tagset of one proper tag counts towards a name: one if the tag
/// counts towards it, nothing if not.
proof fn lemma_count_in_singleton(registry: Registry, tag: Seq<char>, check: Seq<char>)
    requires
        registry.specs.contains_key(tag),
    ensures
        registry.count_tag(check, seq![tag]) == Ok::<nat, Failure>(
            if registry.counts_towards(tag, check) {
                1nat
            } else {
                0nat
            },
        ),
        registry.count_tag(check, Seq::empty()) == Ok::<nat, Failure>(0),
{
    let one = seq![tag];
    lemma_first_match_none(one, registry.unknown_tag());
    lemma_first_match_none(Seq::<Seq<char>>::empty(), registry.unknown_tag());
    assert(one =~= Seq::<Seq<char>>::empty().push(tag));
    Seq::<Seq<char>>::empty().lemma_filter_push(tag, registry.counting(check));
    reveal(Seq::filter);
    assert(Seq::<Seq<char>>::empty().filter(registry.counting(check)).len() == 0);
}

/// Alone in a tagset, a requirement of a tag is met exactly when the tag
/// itself counts towards what it requires.
proof fn lemma_requirement_alone(registry: Registry, tag: Seq<char>, required: Seq<char>)
    requires
        registry.specs.contains_key(tag),
    ensures
        registry.requirement(
            registry.specs[tag],
            required,
            seq![tag],
            Seq::empty(),
            Seq::empty(),
        ) is Ok <==> registry.counts_towards(tag, required),
{
    lemma_count_in_singleton(registry, tag, required);
}

/// Alone in a tagset, a conflict of a tag is real exactly when the tag
/// itself counts towards a conflicting name that is not a group.
proof fn lemma_conflict_alone(registry: Registry, tag: Seq<char>, conflicting: Seq<char>)
    requires
        registry.specs.contains_key(tag),
        registry.bound(),
    ensures
        registry.conflict(
            registry.specs[tag],
            conflicting,
            seq![tag],
            Seq::empty(),
            Seq::empty(),
        ) is Ok <==> registry.is_group(conflicting) || !registry.counts_towards(tag, conflicting),
{
    lemma_count_in_singleton(registry, tag, conflicting);
    lemma_count_in_singleton(registry, tag, tag);
    assert(seq![tag][0] == tag);
}

/// Group self-tolerance: a tag that conflicts with a group of which it is
/// itself a member does not conflict with itself. Alone in a tagset, that
/// conflict is not real.
pub proof fn lemma_group_self_tolerance(registry: Registry, tag: Seq<char>, group: Seq<char>)
    requires
        registry.specs.contains_key(tag),
        registry.bound(),
        registry.is_group(group),
        registry.specs[tag].rules.groups.contains(group),
    ensures
        registry.conflict(registry.specs[tag], group, seq![tag], Seq::empty(), Seq::empty())
            == Ok::<(), Failure>(()),
{
    lemma_conflict_alone(registry, tag, group);
}

/// When a proper tag is valid alone: each name that it requires is its own
/// or one of its groups, and each name that it conflicts with is a group,
/// or is neither its own name nor one of its groups.
pub proof fn lemma_tag_alone(registry: Registry, tag: Seq<char>)
    requires
        registry.specs.contains_key(tag),
        registry.bound(),
    ensures
        registry.validate(seq![tag], Seq::empty(), Seq::empty(), Seq::empty()) is Ok <==> {
            &&& forall|i: int|
                0 <= i < registry.specs[tag].rules.required_tags.len()
                    ==> registry.counts_towards(
                    tag,
                    #[trigger] registry.specs[tag].rules.required_tags[i],
                )
            &&& forall|i: int|
                0 <= i < registry.specs[tag].rules.conflicting_tags.len() ==> registry.is_group(
                    #[trigger] registry.specs[tag].rules.conflicting_tags[i],
                ) || !registry.counts_towards(tag, registry.specs[tag].rules.conflicting_tags[i])
        },
{
    let none = Seq::<Seq<char>>::empty();
    let one = seq![tag];
    let spec = registry.specs[tag];
    let required = spec.rules.required_tags;
    let conflicting = spec.rules.conflicting_tags;
    let outcomes = registry.rule_outcomes(spec, one, none, none);
    let verdicts = registry.verdicts(one, none, none, none);
    lemma_first_match_none(none, registry.unknown_role());
    assert(!overlap(none, none));
    assert(verdicts.len() == 1);
    assert(verdicts[0] == registry.verdict(spec, one, none, none, none));
    assert(verdicts[0] == first_failure(outcomes));
    // the whole tagset is judged as its one tag is
    if verdicts[0] is Err {
        lemma_first_match_at(verdicts, failed(), 0);
    } else {
        lemma_first_match_none(verdicts, failed());
    }
    assert(registry.validate(one, none, none, none) == first_failure(outcomes));
    assert forall|i: int| 0 <= i < required.len() implies (outcomes[i] is Ok
        <==> registry.counts_towards(tag, #[trigger] required[i])) by {
        lemma_requirement_alone(registry, tag, required[i]);
    }
    assert forall|i: int| 0 <= i < conflicting.len() implies (outcomes[required.len() + i] is Ok
        <==> registry.is_group(#[trigger] conflicting[i]) || !registry.counts_towards(
        tag,
        conflicting[i],
    )) by {
        lemma_conflict_alone(registry, tag, conflicting[i]);
    }
    if first_match(outcomes, failed()) is Some {
        let i = lemma_first_match_found(outcomes, failed());
        if i < required.len() {
            assert(!registry.counts_towards(tag, required[i]));
        } else {
            let k = i - required.len();
            assert(outcomes[required.len() + k] is Err);
            assert(!(registry.is_group(conflicting[k]) || !registry.counts_towards(
                tag,
                conflicting[k],
            )));
        }
    } else {
        assert forall|i: int| 0 <= i < outcomes.len() implies (#[trigger] outcomes[i]) is Ok by {
            if outcomes[i] is Err {
                outcomes.lemma_filter_contains(failed(), i);
            }
        }
        assert forall|i: int| 0 <= i < conflicting.len() implies registry.is_group(
            #[trigger] conflicting[i],
        ) || !registry.counts_towards(tag, conflicting[i]) by {
            assert(outcomes[required.len() + i] is Ok);
        }
    }
}

/// A tag that conflicts with a group of which it is itself a member is
/// valid alone, where nothing else stands in its way: where it meets its
/// own requirements, and each other name that it conflicts with is a group
/// or is neither its own name nor one of its groups.
pub proof fn lemma_self_tolerant_tag_is_valid_alone(
    registry: Registry,
    tag: Seq<char>,
    group: Seq<char>,
)
    requires
        registry.specs.contains_key(tag),
        registry.bound(),
        registry.is_group(group),
        registry.specs[tag].rules.conflicting_tags.contains(group),
        registry.specs[tag].rules.groups.contains(group),
        forall|i: int|
            0 <= i < registry.specs[tag].rules.required_tags.len() ==> registry.counts_towards(
                tag,
                #[trigger] registry.specs[tag].rules.required_tags[i],
            ),
        forall|i: int|
            0 <= i < registry.specs[tag].rules.conflicting_tags.len()
                && registry.specs[tag].rules.conflicting_tags[i] != group ==> registry.is_group(
                #[trigger] registry.specs[tag].rules.conflicting_tags[i],
            ) || !registry.counts_towards(tag, registry.specs[tag].rules.conflicting_tags[i]),
    ensures
        registry.validate(seq![tag], Seq::empty(), Seq::empty(), Seq::empty()) == Ok::<
            (),
            Failure,
        >(()),
{
    lemma_tag_alone(registry, tag);
}

// ---- tagsets, as an engine judges them ----------------------------------------

/// An engine never asks for a role where no tag of the current tagset is
/// added or removed.
pub proof fn lemma_engine_asks_no_role_of_tags_that_stay(
    engine: &Engine,
    tags: Seq<Seq<char>>,
    added: Seq<Seq<char>>,
    removed: Seq<Seq<char>>,
    held: Seq<Seq<char>>,
)
    requires
        engine.wf(),
        all_stay(tags, added, removed),
    ensures
        !(engine@.validate(tags, added, removed, held) matches Err(Failure::MissingRoles(_))),
{
    engine.lemma_records_are_bound();
    lemma_tags_that_stay_need_no_role(engine@, tags, added, removed, held);
}

/// In an engine, a tag that conflicts with a registered group of which it
/// is itself a member is valid alone, where nothing else stands in its way:
/// where it meets its own requirements, and each other name that it
/// conflicts with is a group or is neither its own name nor one of its
/// groups.
pub proof fn lemma_engine_tolerates_a_tag_in_its_own_group(
    engine: &Engine,
    tag: Seq<char>,
    group: Seq<char>,
)
    requires
        engine.wf(),
        engine@.specs.contains_key(tag),
        engine@.is_group(group),
        engine@.specs[tag].rules.conflicting_tags.contains(group),
        engine@.specs[tag].rules.groups.contains(group),
        forall|i: int|
            0 <= i < engine@.specs[tag].rules.required_tags.len() ==> engine@.counts_towards(
                tag,
                #[trigger] engine@.specs[tag].rules.required_tags[i],
            ),
        forall|i: int|
            0 <= i < engine@.specs[tag].rules.conflicting_tags.len()
                && engine@.specs[tag].rules.conflicting_tags[i] != group ==> engine@.is_group(
                #[trigger] engine@.specs[tag].rules.conflicting_tags[i],
            ) || !engine@.counts_towards(tag, engine@.specs[tag].rules.conflicting_tags[i]),
    ensures
        engine@.validate(seq![tag], Seq::empty(), Seq::empty(), Seq::empty()) == Ok::<
            (),
            Failure,
        >(()),
{
    engine.lemma_records_are_bound();
    lemma_self_tolerant_tag_is_valid_alone(engine@, tag, group);
}

// ---- registries ---------------------------------------------------------------

/// One change to a registry.
pub enum Change {
    AddTag(Seq<char>, Rules),
    DeleteTag(Seq<char>),
    AddGroup(Seq<char>),
    DeleteGroup(Seq<char>),
    AddRole(Seq<char>),
    DeleteRole(Seq<char>),
}

impl Registry {
    /// The registry after one change.
    pub open spec fn after(self, change: Change) -> Registry {
        match change {
            Change::AddTag(name, rules) => self.add_tag(name, rules),
            Change::DeleteTag(name) => self.delete_tag(name),
            Change::AddGroup(name) => self.add_group(name),
            Change::DeleteGroup(name) => self.delete_group(name),
            Change::AddRole(name) => self.add_role(name),
            Change::DeleteRole(name) => self.delete_role(name),
        }
    }

    /// The registry after a sequence of changes.
    pub open spec fn after_all(self, changes: Seq<Change>) -> Registry
        decreases changes.len(),
    {
        if changes.len() == 0 {
            self
        } else {
            self.after_all(changes.drop_last()).after(changes.last())
        }
    }

    /// What a change needs to be in order: a name that is registered is not
    /// empty.
    pub open spec fn admits(self, change: Change) -> bool {
        match change {
            Change::AddTag(name, _) => name.len() > 0,
            Change::AddGroup(name) => name.len() > 0,
            Change::AddRole(name) => name.len() > 0,
            _ => true,
        }
    }

    /// Each change of the sequence is in order where it comes.
    pub open spec fn admits_all(self, changes: Seq<Change>) -> bool
        decreases changes.len(),
    {
        changes.len() > 0 ==> self.admits_all(changes.drop_last()) && self.after_all(
            changes.drop_last(),
        ).admits(changes.last())
    }
}

/// The registry with nothing registered is consistent, and its records
/// are bound.
pub proof fn lemma_empty_registry_is_consistent()
    ensures
        Registry::empty().consistent(),
        Registry::empty().bound(),
{
}

/// Any sequence of changes keeps each rule record bound to the name that it
/// is kept under.
pub proof fn lemma_changes_keep_records_bound(registry: Registry, changes: Seq<Change>)
    requires
        registry.bound(),
    ensures
        registry.after_all(changes).bound(),
    decreases changes.len(),
{
    if changes.len() > 0 {
        lemma_changes_keep_records_bound(registry, changes.drop_last());
    }
}

/// A change that is in order keeps a registry consistent.
pub proof fn lemma_change_keeps_consistency(registry: Registry, change: Change)
    requires
        registry.consistent(),
        registry.admits(change),
    ensures
        registry.after(change).consistent(),
{
}

/// Any sequence of changes that are in order keeps a registry consistent.
pub proof fn lemma_changes_keep_consistency(registry: Registry, changes: Seq<Change>)
    requires
        registry.consistent(),
        registry.admits_all(changes),
    ensures
        registry.after_all(changes).consistent(),
    decreases changes.len(),
{
    if changes.len() > 0 {
        lemma_changes_keep_consistency(registry, changes.drop_last());
        lemma_change_keeps_consistency(registry.after_all(changes.drop_last()), changes.last());
    }
}

/// In a consistent registry the registered names are of two kinds: a name
/// is a group exactly when it is no proper tag, and every proper tag is
/// registered.
pub proof fn lemma_groups_and_proper_tags(registry: Registry, name: Seq<char>)
    requires
        registry.consistent(),
    ensures
        registry.tags.contains(name) <==> registry.is_group(name) || registry.is_proper_tag(name),
        !(registry.is_group(name) && registry.is_proper_tag(name)),
{
}

/// After a tag is deleted, no rule record requires it or conflicts with it.
pub proof fn lemma_deleted_tag_is_pruned(registry: Registry, name: Seq<char>, other: Seq<char>)
    requires
        registry.delete_tag(name).specs.contains_key(other),
    ensures
        !registry.delete_tag(name).specs.contains_key(name),
        !registry.delete_tag(name).tags.contains(name),
        !registry.delete_tag(name).specs[other].rules.required_tags.contains(name),
        !registry.delete_tag(name).specs[other].rules.conflicting_tags.contains(name),
{
    lemma_struck_out(registry.specs[other].rules.required_tags, name);
    lemma_struck_out(registry.specs[other].rules.conflicting_tags, name);
}

/// After a group is deleted, no rule record names it as a group.
pub proof fn lemma_deleted_group_is_pruned(registry: Registry, name: Seq<char>, other: Seq<char>)
    requires
        registry.delete_group(name).specs.contains_key(other),
    ensures
        !registry.delete_group(name).is_group(name),
        !registry.delete_group(name).specs[other].rules.groups.contains(name),
{
    lemma_struck_out(registry.specs[other].rules.groups, name);
}

/// After a role is deleted, no rule record needs it.
pub proof fn lemma_deleted_role_is_pruned(registry: Registry, name: Seq<char>, other: Seq<char>)
    requires
        registry.delete_role(name).specs.contains_key(other),
    ensures
        !registry.delete_role(name).roles.contains(name),
        !registry.delete_role(name).specs[other].rules.needed_roles.contains(name),
{
    lemma_struck_out(registry.specs[other].rules.needed_roles, name);
}

/// A name that was struck out of a list is not in it.
proof fn lemma_struck_out(names: Seq<Seq<char>>, name: Seq<char>)
    ensures
        !names.filter(other_than(name)).contains(name),
{
    let rest = names.filter(other_than(name));
    if rest.contains(name) {
        let i = choose|i: int| 0 <= i < rest.len() && rest[i] == name;
        names.lemma_filter_pred(other_than(name), i);
    }
}

// ---- configurations -----------------------------------------------------------

/// A name that is listed among names that are not empty is not empty.
proof fn lemma_listed_is_named(names: Seq<Seq<char>>, name: Seq<char>)
    requires
        all_named(names),
        names.contains(name),
    ensures
        name.len() > 0,
{
    let i = choose|i: int| 0 <= i < names.len() && names[i] == name;
    assert(names[i].len() > 0);
}

/// Writing the rules of one planned tag keeps a registry consistent,
/// whether the update fails or not.
pub proof fn lemma_update_keeps_consistency(registry: Registry, plan: TagPlan)
    requires
        registry.consistent(),
        plan.well_named(),
    ensures
        registry.update_one(plan).0.consistent(),
{
    assert forall|n: Seq<char>| plan.groups.contains(n) implies n.len() > 0 by {
        lemma_listed_is_named(plan.groups, n);
    }
}

/// Writing the rules of planned tags one after the other keeps a registry
/// consistent, wherever it ends.
pub proof fn lemma_updates_keep_consistency(registry: Registry, plans: Seq<TagPlan>)
    requires
        registry.consistent(),
        forall|i: int| 0 <= i < plans.len() ==> (#[trigger] plans[i]).well_named(),
    ensures
        registry.update_all(plans).0.consistent(),
    decreases plans.len(),
{
    if plans.len() > 0 {
        lemma_update_keeps_consistency(registry, plans[0]);
        let rest = plans.drop_first();
        assert forall|i: int| 0 <= i < rest.len() implies (#[trigger] rest[i]).well_named() by {
            assert(rest[i] == plans[i + 1]);
        }
        lemma_updates_keep_consistency(registry.update_one(plans[0]).0, rest);
    }
}

/// Applying a configuration keeps a registry consistent, whether it fails
/// on the way or not.
pub proof fn lemma_reconcile_keeps_consistency(registry: Registry, plan: Plan)
    requires
        registry.consistent(),
        plan.well_named(),
    ensures
        registry.reconcile(plan).0.consistent(),
{
    let names = planned_names(plan.tags);
    let first = registry.reconcile_roles(plan.roles);
    assert(first.consistent()) by {
        assert forall|n: Seq<char>| first.roles.contains(n) implies n.len() > 0 by {
            if plan.roles.contains(n) {
                lemma_listed_is_named(plan.roles, n);
            }
        }
    }
    let second = first.reconcile_tags(names);
    assert(second.consistent()) by {
        assert forall|n: Seq<char>| names.contains(n) implies n.len() > 0 by {
            let i = choose|i: int| 0 <= i < names.len() && names[i] == n;
            assert(plan.tags[i].well_named());
        }
    }
    lemma_updates_keep_consistency(second, plan.tags);
}

/// Writing the rules of planned tags registers and unregisters no role and
/// no proper tag; and where it succeeds, each planned tag is a proper tag.
pub proof fn lemma_updates_keep_what_is_registered(registry: Registry, plans: Seq<TagPlan>)
    ensures
        registry.update_all(plans).0.roles == registry.roles,
        registry.update_all(plans).0.specs.dom() == registry.specs.dom(),
        registry.update_all(plans).1 is Ok ==> forall|i: int|
            0 <= i < plans.len() ==> registry.specs.contains_key((#[trigger] plans[i]).name),
    decreases plans.len(),
{
    if plans.len() > 0 {
        let step = registry.update_one(plans[0]);
        let rest = plans.drop_first();
        assert(step.0.specs.dom() =~= registry.specs.dom());
        lemma_updates_keep_what_is_registered(step.0, rest);
        if registry.update_all(plans).1 is Ok {
            assert forall|i: int| 0 <= i < plans.len() implies registry.specs.contains_key(
                (#[trigger] plans[i]).name,
            ) by {
                if i > 0 {
                    assert(rest[i - 1] == plans[i]);
                    assert(step.0.specs.dom().contains(rest[i - 1].name));
                }
            }
        }
    }
}

/// Where a configuration was applied with success, the registered roles are
/// those of the configuration and the proper tags are the configured tags.
pub proof fn lemma_reconciled(registry: Registry, plan: Plan)
    requires
        registry.reconcile(plan).1 is Ok,
    ensures
        registry.reconcile(plan).0.roles == plan.roles.to_set(),
        registry.reconcile(plan).0.specs.dom() == planned_names(plan.tags).to_set(),
{
    let names = planned_names(plan.tags);
    let first = registry.reconcile_roles(plan.roles);
    let second = first.reconcile_tags(names);
    lemma_updates_keep_what_is_registered(second, plan.tags);
    assert(second.roles =~= plan.roles.to_set());
    assert forall|n: Seq<char>| names.contains(n) implies second.specs.contains_key(n) by {
        let i = choose|i: int| 0 <= i < names.len() && names[i] == n;
        assert(plan.tags[i].name == n);
    }
    assert(second.specs.dom() =~= names.to_set());
}

/// Writing the rules of planned tags leaves each rule record bound to the
/// name that it is kept under.
pub proof fn lemma_updates_keep_records_bound(registry: Registry, plans: Seq<TagPlan>)
    requires
        registry.bound(),
    ensures
        registry.update_all(plans).0.bound(),
    decreases plans.len(),
{
    if plans.len() > 0 {
        lemma_updates_keep_records_bound(registry.update_one(plans[0]).0, plans.drop_first());
    }
}

/// Applying a configuration leaves each rule record bound to the name that
/// it is kept under, whether it fails on the way or not.
pub proof fn lemma_reconcile_keeps_records_bound(registry: Registry, plan: Plan)
    requires
        registry.bound(),
    ensures
        registry.reconcile(plan).0.bound(),
{
    let second = registry.reconcile_roles(plan.roles).reconcile_tags(planned_names(plan.tags));
    assert(second.bound());
    lemma_updates_keep_records_bound(second, plan.tags);
}

} // verus!
