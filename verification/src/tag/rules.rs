use crate::engine::Engine;
use crate::error::{outcome, Error};
use crate::model::{
    failed, gate_open, lemma_first_match_at, lemma_first_match_none, other_than,
    overlap, Failure, Rules, TagRules, BOTH_ADDED_AND_REMOVED,
};
use crate::tag::{role_names, tag_names, Role, Tag};
use vstd::prelude::*;

verus! {

/// The rules of a tag, before they are bound to it.
///
/// Consumed by an [`Engine`](crate::Engine) to produce a [`TagSpec`]. The
/// names in it need not be registered yet: they are looked up when a tagset
/// is checked.
#[derive(Debug)]
pub struct TemplateTagSpec {
    /// Which tags or tag groups must also be present before this one may
    /// be applied.
    pub required_tags: Vec<Tag>,
    /// Which tags or tag groups may not be present if this one is to be
    /// applied.
    ///
    /// Naming a group that this tag is a member of is not contradictory:
    /// the tag is then the only one of its group that may be present.
    pub conflicting_tags: Vec<Tag>,
    /// The roles which may add or remove this tag. With none listed, anyone
    /// may.
    pub needed_roles: Vec<Role>,
    /// The tag groups this tag is a member of.
    pub groups: Vec<Tag>,
}

impl View for TemplateTagSpec {
    type V = Rules;

    open spec fn view(&self) -> Rules {
        Rules {
            required_tags: tag_names(self.required_tags@),
            conflicting_tags: tag_names(self.conflicting_tags@),
            needed_roles: role_names(self.needed_roles@),
            groups: tag_names(self.groups@),
        }
    }
}

impl Default for TemplateTagSpec {
    /// The template without any rule.
    fn default() -> (spec: TemplateTagSpec)
        ensures
            spec@ == Rules::none(),
    {
        let spec = TemplateTagSpec {
            required_tags: Vec::new(),
            conflicting_tags: Vec::new(),
            needed_roles: Vec::new(),
            groups: Vec::new(),
        };
        assert(spec@.required_tags =~= Seq::empty());
        assert(spec@.conflicting_tags =~= Seq::empty());
        assert(spec@.needed_roles =~= Seq::empty());
        assert(spec@.groups =~= Seq::empty());
        spec
    }
}

impl Clone for TemplateTagSpec {
    fn clone(&self) -> (spec: TemplateTagSpec)
        ensures
            spec@ == self@,
    {
        TemplateTagSpec {
            required_tags: clone_tags(&self.required_tags),
            conflicting_tags: clone_tags(&self.conflicting_tags),
            needed_roles: clone_roles(&self.needed_roles),
            groups: clone_tags(&self.groups),
        }
    }
}

/// A [`TemplateTagSpec`] that has been associated with a particular
/// [`Tag`]: the rule record that an [`Engine`](crate::Engine) keeps for a
/// proper tag.
#[derive(Debug)]
pub struct TagSpec {
    pub(crate) tag: Tag,
    /// Which tags or tag groups must also be present before this one may
    /// be applied.
    pub required_tags: Vec<Tag>,
    /// Which tags or tag groups may not be present if this one is to be
    /// applied.
    pub conflicting_tags: Vec<Tag>,
    /// The roles which may add or remove this tag.
    pub needed_roles: Vec<Role>,
    /// The tag groups this tag is a member of.
    pub groups: Vec<Tag>,
}

impl View for TagSpec {
    type V = TagRules;

    closed spec fn view(&self) -> TagRules {
        TagRules {
            tag: self.tag@,
            rules: Rules {
                required_tags: tag_names(self.required_tags@),
                conflicting_tags: tag_names(self.conflicting_tags@),
                needed_roles: role_names(self.needed_roles@),
                groups: tag_names(self.groups@),
            },
        }
    }
}

impl TagSpec {
    /// What the record stands for, field by field.
    pub(crate) proof fn lemma_view(&self)
        ensures
            self@ == (TagRules {
                tag: self.tag@,
                rules: Rules {
                    required_tags: tag_names(self.required_tags@),
                    conflicting_tags: tag_names(self.conflicting_tags@),
                    needed_roles: role_names(self.needed_roles@),
                    groups: tag_names(self.groups@),
                },
            }),
    {
    }

    /// Returns the tag that the rules are bound to.
    pub fn tag(&self) -> (tag: Tag)
        ensures
            tag@ == self@.tag,
    {
        self.tag.clone()
    }

    /// Creates a new instance using the given tag and template. The names
    /// in the template are taken as they are.
    pub fn from_template(tag: &Tag, spec: TemplateTagSpec) -> (bound: TagSpec)
        ensures
            bound@ == (TagRules { tag: tag@, rules: spec@ }),
    {
        let tag = tag.clone();
        let TemplateTagSpec { required_tags, conflicting_tags, needed_roles, groups } = spec;
        TagSpec { tag, required_tags, conflicting_tags, needed_roles, groups }
    }
}

impl TagSpec {
    /// Replaces the tags and groups that the tag requires. The record stays
    /// bound to its tag.
    pub fn set_required_tags(&mut self, tags: Vec<Tag>)
        ensures
            final(self)@ == (TagRules {
                rules: Rules { required_tags: tag_names(tags@), ..old(self)@.rules },
                ..old(self)@
            }),
    {
        self.required_tags = tags;
    }

    /// Replaces the tags and groups that the tag conflicts with. The record
    /// stays bound to its tag.
    pub fn set_conflicting_tags(&mut self, tags: Vec<Tag>)
        ensures
            final(self)@ == (TagRules {
                rules: Rules { conflicting_tags: tag_names(tags@), ..old(self)@.rules },
                ..old(self)@
            }),
    {
        self.conflicting_tags = tags;
    }

    /// Replaces the roles of which one is needed to change the tag. The
    /// record stays bound to its tag.
    pub fn set_needed_roles(&mut self, roles: Vec<Role>)
        ensures
            final(self)@ == (TagRules {
                rules: Rules { needed_roles: role_names(roles@), ..old(self)@.rules },
                ..old(self)@
            }),
    {
        self.needed_roles = roles;
    }

    /// Replaces the groups that the tag is a member of. The record stays
    /// bound to its tag.
    pub fn set_groups(&mut self, groups: Vec<Tag>)
        ensures
            final(self)@ == (TagRules {
                rules: Rules { groups: tag_names(groups@), ..old(self)@.rules },
                ..old(self)@
            }),
    {
        self.groups = groups;
    }
}

impl TagSpec {
    /// Strikes the tag out of the requirements and conflicts.
    pub(crate) fn strip_tag(&mut self, tag: &Tag)
        ensures
            final(self)@ == old(self)@.without_tag(tag@),
    {
        self.required_tags = without_tag(&self.required_tags, tag);
        self.conflicting_tags = without_tag(&self.conflicting_tags, tag);
    }

    /// Strikes the group out of the memberships.
    pub(crate) fn strip_group(&mut self, group: &Tag)
        ensures
            final(self)@ == old(self)@.without_group(group@),
    {
        self.groups = without_tag(&self.groups, group);
    }

    /// Strikes the role out of the needed roles.
    pub(crate) fn strip_role(&mut self, role: &Role)
        ensures
            final(self)@ == old(self)@.without_role(role@),
    {
        self.needed_roles = without_role(&self.needed_roles, role);
    }
}

impl TagSpec {
    /// Whether an actor with the given roles may add or remove the tag:
    /// the tag needs no role, or the actor holds one that it needs.
    pub fn check_roles(&self, roles: &[Role]) -> (result: Result<(), Error>)
        ensures
            outcome(result) == if gate_open(self@.rules.needed_roles, role_names(roles@)) {
                Ok::<(), Failure>(())
            } else {
                Err::<(), Failure>(Failure::MissingRoles(self@.rules.needed_roles))
            },
    {
        if self.needed_roles.len() == 0 {
            return Ok(());
        }
        let mut i: usize = 0;
        while i < roles.len()
            invariant
                0 <= i <= roles.len(),
                forall|j: int|
                    0 <= j < i ==> !role_names(self.needed_roles@).contains(
                        #[trigger] role_names(roles@)[j],
                    ),
            decreases roles.len() - i,
        {
            if contains_role(self.needed_roles.as_slice(), &roles[i]) {
                assert(role_names(self.needed_roles@).contains(role_names(roles@)[i as int]));
                return Ok(());
            }
            i += 1;
        }
        Err(Error::MissingRoles(clone_roles(&self.needed_roles)))
    }

    /// Checks that the given tags comply with this tag's rules, as they
    /// stand in the engine: a change that adds and removes nothing.
    pub fn check_tags(&self, engine: &Engine, tags: &[Tag]) -> (result: Result<(), Error>)
        requires
            engine.wf(),
        ensures
            outcome(result) == engine@.verdict(
                self@,
                tag_names(tags@),
                Seq::empty(),
                Seq::empty(),
                Seq::empty(),
            ),
    {
        let no_tags: Vec<Tag> = Vec::new();
        let no_roles: Vec<Role> = Vec::new();
        proof {
            assert(tag_names(no_tags@) =~= Seq::empty());
            assert(role_names(no_roles@) =~= Seq::empty());
        }
        self.check_tag_changes(
            engine,
            tags,
            no_tags.as_slice(),
            no_tags.as_slice(),
            no_roles.as_slice(),
        )
    }

    /// Checks that a change to the given tags complies with this tag's
    /// rules, as they stand in the engine.
    ///
    /// The change adds `added_tags` to `tags` and removes `removed_tags`;
    /// the actor holds `roles`. A tag may not be both added and removed. If
    /// the change touches this tag, the actor must pass its role gate. Then
    /// each requirement must be met and no conflict may be present, counted
    /// over the current and the added tags; what is being removed counts
    /// for nothing. The first rule that fails is reported.
    #[verifier::loop_isolation(false)]
    pub fn check_tag_changes(
        &self,
        engine: &Engine,
        tags: &[Tag],
        added_tags: &[Tag],
        removed_tags: &[Tag],
        roles: &[Role],
    ) -> (result: Result<(), Error>)
        requires
            engine.wf(),
        ensures
            outcome(result) == engine@.verdict(
                self@,
                tag_names(tags@),
                tag_names(added_tags@),
                tag_names(removed_tags@),
                role_names(roles@),
            ),
    {
        let ghost current = tag_names(tags@);
        let ghost added = tag_names(added_tags@);
        let ghost removed = tag_names(removed_tags@);
        let ghost required = tag_names(self.required_tags@);
        let ghost conflicting = tag_names(self.conflicting_tags@);
        let ghost outcomes = engine@.rule_outcomes(self@, current, added, removed);

        // Check for tags that are both added and removed
        if overlaps(added_tags, removed_tags) {
            return Err(Error::Other(BOTH_ADDED_AND_REMOVED));
        }
        // Check if this tag was changed
        if contains_tag(added_tags, &self.tag) || contains_tag(removed_tags, &self.tag) {
            // If so, ensure the actor has permission to change this tag
            match self.check_roles(roles) {
                Err(error) => {
                    return Err(error);
                },
                Ok(()) => {},
            }
        }
        // Ensure all requirements are met

        let mut i: usize = 0;
        while i < self.required_tags.len()
            invariant
                0 <= i <= self.required_tags.len(),
                engine.wf(),
                current == tag_names(tags@),
                added == tag_names(added_tags@),
                removed == tag_names(removed_tags@),
                required == tag_names(self.required_tags@),
                conflicting == tag_names(self.conflicting_tags@),
                outcomes == engine@.rule_outcomes(self@, current, added, removed),
                forall|k: int| 0 <= k < i ==> (#[trigger] outcomes[k]) is Ok,
            decreases self.required_tags.len() - i,
        {
            let needed = &self.required_tags[i];
            assert(required[i as int] == needed@);
            assert(outcomes[i as int] == engine@.requirement(
                self@,
                needed@,
                current,
                added,
                removed,
            ));
            match count_exceeds(engine, needed, tags, added_tags, removed_tags, 0) {
                Err(error) => {
                    proof {
                        lemma_first_match_at(outcomes, failed(), i as int);
                    }
                    return Err(error);
                },
                Ok(present) => {
                    if !present {
                        proof {
                            lemma_first_match_at(outcomes, failed(), i as int);
                        }
                        return Err(
                            Error::RequiresTags(self.tag(), clone_tags(&self.required_tags)),
                        );
                    }
                },
            }
            i += 1;
        }
        // Ensure no conflicts are present

        let mut j: usize = 0;
        while j < self.conflicting_tags.len()
            invariant
                0 <= j <= self.conflicting_tags.len(),
                engine.wf(),
                current == tag_names(tags@),
                added == tag_names(added_tags@),
                removed == tag_names(removed_tags@),
                required == tag_names(self.required_tags@),
                conflicting == tag_names(self.conflicting_tags@),
                outcomes == engine@.rule_outcomes(self@, current, added, removed),
                forall|k: int| 0 <= k < required.len() + j ==> (#[trigger] outcomes[k]) is Ok,
            decreases self.conflicting_tags.len() - j,
        {
            let other = &self.conflicting_tags[j];
            let ghost at = required.len() + j;
            assert(conflicting[j as int] == other@);
            assert(outcomes[at] == engine@.conflict(self@, other@, current, added, removed));
            // A tag that is itself a member of a conflicting group is
            // tolerated there once: it is the group's only member allowed.
            let limit: usize = if engine.is_group(other) {
                let here = match engine.check_tag(&self.tag, tags) {
                    Err(error) => {
                        proof {
                            lemma_first_match_at(outcomes, failed(), at);
                        }
                        return Err(error);
                    },
                    Ok(here) => here,
                };
                let there = if here {
                    true
                } else {
                    match engine.check_tag(&self.tag, added_tags) {
                        Err(error) => {
                            proof {
                                lemma_first_match_at(outcomes, failed(), at);
                            }
                            return Err(error);
                        },
                        Ok(there) => there,
                    }
                };
                if there {
                    1
                } else {
                    0
                }
            } else {
                0
            };
            assert(engine@.tolerance(self@.tag, other@, current, added) == Ok::<nat, Failure>(
                limit as nat,
            ));
            match count_exceeds(engine, other, tags, added_tags, removed_tags, limit) {
                Err(error) => {
                    proof {
                        lemma_first_match_at(outcomes, failed(), at);
                    }
                    return Err(error);
                },
                Ok(clash) => {
                    if clash {
                        proof {
                            lemma_first_match_at(outcomes, failed(), at);
                        }
                        return Err(Error::IncompatibleTags(self.tag(), other.clone()));
                    }
                },
            }
            j += 1;
        }
        proof {
            lemma_first_match_none(outcomes, failed());
        }
        Ok(())
    }
}

/// Whether the effective presence count of `name` in a change is above
/// `limit`: nothing counts for a name that is being removed; else the
/// current and the added tags count together.
fn count_exceeds(
    engine: &Engine,
    name: &Tag,
    tags: &[Tag],
    added_tags: &[Tag],
    removed_tags: &[Tag],
    limit: usize,
) -> (result: Result<bool, Error>)
    requires
        engine.wf(),
    ensures
        outcome(result) == match engine@.effective_count(
            name@,
            tag_names(tags@),
            tag_names(added_tags@),
            tag_names(removed_tags@),
        ) {
            Ok(count) => Ok::<bool, Failure>(count > limit),
            Err(failure) => Err::<bool, Failure>(failure),
        },
{
    if contains_tag(removed_tags, name) {
        return Ok(false);
    }
    let current = match engine.count_tag(name, tags) {
        Err(error) => {
            return Err(error);
        },
        Ok(current) => current,
    };
    let new = match engine.count_tag(name, added_tags) {
        Err(error) => {
            return Err(error);
        },
        Ok(new) => new,
    };
    Ok(current > limit || new > limit - current)
}

/// Whether some tag is in both lists.
pub(crate) fn overlaps(added_tags: &[Tag], removed_tags: &[Tag]) -> (both: bool)
    ensures
        both == overlap(tag_names(added_tags@), tag_names(removed_tags@)),
{
    let mut i: usize = 0;
    while i < added_tags.len()
        invariant
            0 <= i <= added_tags.len(),
            forall|j: int|
                0 <= j < i ==> !tag_names(removed_tags@).contains(
                    #[trigger] tag_names(added_tags@)[j],
                ),
        decreases added_tags.len() - i,
    {
        if contains_tag(removed_tags, &added_tags[i]) {
            assert(tag_names(removed_tags@).contains(tag_names(added_tags@)[i as int]));
            return true;
        }
        i += 1;
    }
    false
}

/// The tags of the list that have another name, in order.
pub(crate) fn without_tag(list: &Vec<Tag>, tag: &Tag) -> (rest: Vec<Tag>)
    ensures
        tag_names(rest@) == tag_names(list@).filter(other_than(tag@)),
{
    let ghost names = tag_names(list@);
    let mut rest: Vec<Tag> = Vec::new();
    let mut i: usize = 0;
    proof {
        assert(names.take(0) =~= Seq::empty());
        reveal(Seq::filter);
        assert(tag_names(rest@) =~= names.take(0).filter(other_than(tag@)));
    }
    while i < list.len()
        invariant
            0 <= i <= list.len(),
            names == tag_names(list@),
            tag_names(rest@) == names.take(i as int).filter(other_than(tag@)),
        decreases list.len() - i,
    {
        let ghost before = tag_names(rest@);
        proof {
            names.lemma_take_succ_push(i as int);
            names.take(i as int).lemma_filter_push(names[i as int], other_than(tag@));
        }
        if list[i] != *tag {
            rest.push(list[i].clone());
            assert(tag_names(rest@) =~= before.push(names[i as int]));
        }
        i += 1;
    }
    proof {
        assert(names.take(i as int) =~= names);
    }
    rest
}

/// The roles of the list that have another name, in order.
pub(crate) fn without_role(list: &Vec<Role>, role: &Role) -> (rest: Vec<Role>)
    ensures
        role_names(rest@) == role_names(list@).filter(other_than(role@)),
{
    let ghost names = role_names(list@);
    let mut rest: Vec<Role> = Vec::new();
    let mut i: usize = 0;
    proof {
        assert(names.take(0) =~= Seq::empty());
        reveal(Seq::filter);
        assert(role_names(rest@) =~= names.take(0).filter(other_than(role@)));
    }
    while i < list.len()
        invariant
            0 <= i <= list.len(),
            names == role_names(list@),
            role_names(rest@) == names.take(i as int).filter(other_than(role@)),
        decreases list.len() - i,
    {
        let ghost before = role_names(rest@);
        proof {
            names.lemma_take_succ_push(i as int);
            names.take(i as int).lemma_filter_push(names[i as int], other_than(role@));
        }
        if list[i] != *role {
            rest.push(list[i].clone());
            assert(role_names(rest@) =~= before.push(names[i as int]));
        }
        i += 1;
    }
    proof {
        assert(names.take(i as int) =~= names);
    }
    rest
}

/// Whether a tag of that name is in the list.
pub(crate) fn contains_tag(list: &[Tag], tag: &Tag) -> (found: bool)
    ensures
        found == tag_names(list@).contains(tag@),
{
    let mut i: usize = 0;
    while i < list.len()
        invariant
            0 <= i <= list.len(),
            forall|j: int| 0 <= j < i ==> tag_names(list@)[j] != tag@,
        decreases list.len() - i,
    {
        if list[i] == *tag {
            assert(tag_names(list@)[i as int] == tag@);
            return true;
        }
        i += 1;
    }
    false
}

/// Whether a role of that name is in the list.
pub(crate) fn contains_role(list: &[Role], role: &Role) -> (found: bool)
    ensures
        found == role_names(list@).contains(role@),
{
    let mut i: usize = 0;
    while i < list.len()
        invariant
            0 <= i <= list.len(),
            forall|j: int| 0 <= j < i ==> role_names(list@)[j] != role@,
        decreases list.len() - i,
    {
        if list[i] == *role {
            assert(role_names(list@)[i as int] == role@);
            return true;
        }
        i += 1;
    }
    false
}

/// A list of the same tags.
pub(crate) fn clone_tags(list: &Vec<Tag>) -> (copy: Vec<Tag>)
    ensures
        tag_names(copy@) == tag_names(list@),
{
    let copy = list.clone();
    assert(tag_names(copy@) =~= tag_names(list@));
    copy
}

/// A list of the same roles.
pub(crate) fn clone_roles(list: &Vec<Role>) -> (copy: Vec<Role>)
    ensures
        role_names(copy@) == role_names(list@),
{
    let copy = list.clone();
    assert(role_names(copy@) =~= role_names(list@));
    copy
}

} // verus!
