//! The mathematical model that the contracts of this crate speak of.
//!
//! Names are sequences of characters. A [`Registry`] is what an
//! [`Engine`](crate::Engine) stands for: a map from the proper tags to their
//! rules, the set of all registered tag and group names, and the set of
//! registered roles. The functions on it say, without any machine detail,
//! what each operation of the engine does and what each query answers.

use vstd::prelude::*;

verus! {

/// The message of the failure reported when a change both adds and removes
/// one tag.
pub const BOTH_ADDED_AND_REMOVED: &'static str = "Tag present in both added_tags and removed_tags";

/// The rules of one tag: what a `TemplateTagSpec` stands for.
pub struct Rules {
    /// Names (tags or groups) that must be present with the tag.
    pub required_tags: Seq<Seq<char>>,
    /// Names (tags or groups) that may not be present with the tag.
    pub conflicting_tags: Seq<Seq<char>>,
    /// Roles of which an actor needs one to add or remove the tag.
    pub needed_roles: Seq<Seq<char>>,
    /// Names that the tag counts towards, besides its own.
    pub groups: Seq<Seq<char>>,
}

/// Rules bound to a tag: what a `TagSpec` stands for.
pub struct TagRules {
    /// The tag that failures are reported against.
    pub tag: Seq<char>,
    pub rules: Rules,
}

/// What an `Error` stands for.
pub enum Failure {
    RequiresTags(Seq<char>, Seq<Seq<char>>),
    IncompatibleTags(Seq<char>, Seq<char>),
    MissingTag(Seq<char>),
    NoSuchTag(Seq<char>),
    MissingRole(Seq<char>),
    MissingRoles(Seq<Seq<char>>),
    NoSuchRole(Seq<char>),
    Other(Seq<char>),
}

/// What an `Engine` stands for.
pub struct Registry {
    /// The rules of every proper tag.
    pub specs: Map<Seq<char>, TagRules>,
    /// Every registered name, proper tags and groups alike.
    pub tags: Set<Seq<char>>,
    /// Every registered role.
    pub roles: Set<Seq<char>>,
}

/// The first element of `s` that satisfies `p`, if there is one.
pub open spec fn first_match<A>(s: Seq<A>, p: spec_fn(A) -> bool) -> Option<A> {
    let found = s.filter(p);
    if found.len() > 0 {
        Some(found[0])
    } else {
        None
    }
}

/// The outcomes that are failures.
pub open spec fn failed() -> spec_fn(Result<(), Failure>) -> bool {
    |outcome: Result<(), Failure>| outcome is Err
}

/// The names other than `name`.
pub open spec fn other_than(name: Seq<char>) -> spec_fn(Seq<char>) -> bool {
    |n: Seq<char>| n != name
}

/// The first failure in a sequence of outcomes, or success if there is none.
pub open spec fn first_failure(outcomes: Seq<Result<(), Failure>>) -> Result<(), Failure> {
    match first_match(outcomes, failed()) {
        Some(failure) => failure,
        None => Ok(()),
    }
}

/// Some name is both added and removed.
pub open spec fn overlap(added: Seq<Seq<char>>, removed: Seq<Seq<char>>) -> bool {
    exists|i: int| 0 <= i < added.len() && removed.contains(#[trigger] added[i])
}

/// No tag of the current tagset is added or removed: each of them stays.
pub open spec fn all_stay(
    tags: Seq<Seq<char>>,
    added: Seq<Seq<char>>,
    removed: Seq<Seq<char>>,
) -> bool {
    forall|i: int|
        0 <= i < tags.len() ==> !added.contains(#[trigger] tags[i]) && !removed.contains(tags[i])
}

/// The role gate of a changed tag: it is open when the tag needs no role,
/// or when the actor holds one of the roles it needs.
pub open spec fn gate_open(needed: Seq<Seq<char>>, held: Seq<Seq<char>>) -> bool {
    needed.len() == 0 || exists|i: int| 0 <= i < held.len() && needed.contains(#[trigger] held[i])
}

impl Rules {
    /// No rule at all.
    pub open spec fn none() -> Rules {
        Rules {
            required_tags: Seq::empty(),
            conflicting_tags: Seq::empty(),
            needed_roles: Seq::empty(),
            groups: Seq::empty(),
        }
    }

    /// The rules with every requirement of and conflict with `name` struck
    /// out.
    pub open spec fn without_tag(self, name: Seq<char>) -> Rules {
        Rules {
            required_tags: self.required_tags.filter(other_than(name)),
            conflicting_tags: self.conflicting_tags.filter(other_than(name)),
            ..self
        }
    }

    /// The rules with every membership of `name` struck out.
    pub open spec fn without_group(self, name: Seq<char>) -> Rules {
        Rules { groups: self.groups.filter(other_than(name)), ..self }
    }

    /// The rules with every need of the role `name` struck out.
    pub open spec fn without_role(self, name: Seq<char>) -> Rules {
        Rules { needed_roles: self.needed_roles.filter(other_than(name)), ..self }
    }
}

impl TagRules {
    /// The record with every requirement of and conflict with `name` struck
    /// out.
    pub open spec fn without_tag(self, name: Seq<char>) -> TagRules {
        TagRules { rules: self.rules.without_tag(name), ..self }
    }

    /// The record with every membership of `name` struck out.
    pub open spec fn without_group(self, name: Seq<char>) -> TagRules {
        TagRules { rules: self.rules.without_group(name), ..self }
    }

    /// The record with every need of the role `name` struck out.
    pub open spec fn without_role(self, name: Seq<char>) -> TagRules {
        TagRules { rules: self.rules.without_role(name), ..self }
    }
}

impl Registry {
    /// The registry with nothing registered.
    pub open spec fn empty() -> Registry {
        Registry { specs: Map::empty(), tags: Set::empty(), roles: Set::empty() }
    }

    /// `name` is registered and has rules of its own.
    pub open spec fn is_proper_tag(self, name: Seq<char>) -> bool {
        self.specs.contains_key(name)
    }

    /// `name` is registered and has no rules of its own.
    pub open spec fn is_group(self, name: Seq<char>) -> bool {
        self.tags.contains(name) && !self.specs.contains_key(name)
    }

    /// Each rule record is bound to the name that it is kept under.
    pub open spec fn bound(self) -> bool {
        forall|n: Seq<char>| self.specs.contains_key(n) ==> (#[trigger] self.specs[n]).tag == n
    }

    /// Every tag with rules is registered, and no registered name is empty.
    pub open spec fn consistent(self) -> bool {
        &&& forall|n: Seq<char>| self.specs.contains_key(n) ==> self.tags.contains(n)
        &&& forall|n: Seq<char>| self.tags.contains(n) ==> n.len() > 0
        &&& forall|n: Seq<char>| self.roles.contains(n) ==> n.len() > 0
    }

    // ---- registration ------------------------------------------------

    /// Registers `name` as a proper tag with the given rules, replacing the
    /// rules it had.
    pub open spec fn add_tag(self, name: Seq<char>, rules: Rules) -> Registry {
        Registry {
            specs: self.specs.insert(name, TagRules { tag: name, rules }),
            tags: self.tags.insert(name),
            ..self
        }
    }

    /// Unregisters `name` with its rules, and strikes it out of the
    /// requirements and conflicts of every other tag.
    pub open spec fn delete_tag(self, name: Seq<char>) -> Registry {
        Registry {
            specs: Map::new(
                |n: Seq<char>| n != name && self.specs.contains_key(n),
                |n: Seq<char>| self.specs[n].without_tag(name),
            ),
            tags: self.tags.remove(name),
            ..self
        }
    }

    /// Registers `name`. A proper tag of that name keeps its rules.
    pub open spec fn add_group(self, name: Seq<char>) -> Registry {
        Registry { tags: self.tags.insert(name), ..self }
    }

    /// Unregisters the group `name` and strikes it out of the groups of
    /// every tag. A proper tag of that name is no group: it stays
    /// registered, with its rules.
    pub open spec fn delete_group(self, name: Seq<char>) -> Registry {
        Registry {
            specs: Map::new(
                |n: Seq<char>| self.specs.contains_key(n),
                |n: Seq<char>| self.specs[n].without_group(name),
            ),
            tags: if self.specs.contains_key(name) {
                self.tags
            } else {
                self.tags.remove(name)
            },
            ..self
        }
    }

    /// Registers the role `name`.
    pub open spec fn add_role(self, name: Seq<char>) -> Registry {
        Registry { roles: self.roles.insert(name), ..self }
    }

    /// Unregisters the role `name` and strikes it out of the needed roles of
    /// every tag.
    pub open spec fn delete_role(self, name: Seq<char>) -> Registry {
        Registry {
            specs: Map::new(
                |n: Seq<char>| self.specs.contains_key(n),
                |n: Seq<char>| self.specs[n].without_role(name),
            ),
            roles: self.roles.remove(name),
            ..self
        }
    }

    /// The registry with the rules kept under `name` replaced.
    pub open spec fn with_spec(self, name: Seq<char>, spec: TagRules) -> Registry {
        Registry { specs: self.specs.insert(name, spec), ..self }
    }

    // ---- counting ----------------------------------------------------

    /// A listed proper tag counts towards `check` when it is `check` itself
    /// or names `check` among its groups.
    pub open spec fn counts_towards(self, listed: Seq<char>, check: Seq<char>) -> bool {
        listed == check || self.specs[listed].rules.groups.contains(check)
    }

    /// The names that count towards `check`.
    pub open spec fn counting(self, check: Seq<char>) -> spec_fn(Seq<char>) -> bool {
        |listed: Seq<char>| self.counts_towards(listed, check)
    }

    /// The names that are not proper tags.
    pub open spec fn unknown_tag(self) -> spec_fn(Seq<char>) -> bool {
        |name: Seq<char>| !self.specs.contains_key(name)
    }

    /// The names that are not registered roles.
    pub open spec fn unknown_role(self) -> spec_fn(Seq<char>) -> bool {
        |name: Seq<char>| !self.roles.contains(name)
    }

    /// How many entries of `list` count towards `check`, each entry counted
    /// as often as it occurs. Every entry must be a proper tag: the first
    /// that is not is reported as missing.
    pub open spec fn count_tag(self, check: Seq<char>, list: Seq<Seq<char>>) -> Result<
        nat,
        Failure,
    > {
        match first_match(list, self.unknown_tag()) {
            Some(stranger) => Err(Failure::MissingTag(stranger)),
            None => Ok(list.filter(self.counting(check)).len()),
        }
    }

    /// Whether `check` is present in `list`: for a group, whether some entry
    /// counts towards it; for any other name, whether it is listed. Every
    /// entry must be a proper tag, as for [`Registry::count_tag`].
    pub open spec fn check_tag(self, check: Seq<char>, list: Seq<Seq<char>>) -> Result<
        bool,
        Failure,
    > {
        match self.count_tag(check, list) {
            Err(failure) => Err(failure),
            Ok(count) => Ok(
                if self.is_group(check) {
                    count > 0
                } else {
                    list.contains(check)
                },
            ),
        }
    }

    /// The effective presence count of `name` in a change: nothing for a
    /// name that is being removed, else what the current and the added tags
    /// count together.
    pub open spec fn effective_count(
        self,
        name: Seq<char>,
        tags: Seq<Seq<char>>,
        added: Seq<Seq<char>>,
        removed: Seq<Seq<char>>,
    ) -> Result<nat, Failure> {
        if removed.contains(name) {
            Ok(0)
        } else {
            match self.count_tag(name, tags) {
                Err(failure) => Err(failure),
                Ok(current) => match self.count_tag(name, added) {
                    Err(failure) => Err(failure),
                    Ok(new) => Ok(current + new),
                },
            }
        }
    }

    // ---- the rules of one tag ------------------------------------------

    /// The outcome of one requirement of `spec`.
    pub open spec fn requirement(
        self,
        spec: TagRules,
        required: Seq<char>,
        tags: Seq<Seq<char>>,
        added: Seq<Seq<char>>,
        removed: Seq<Seq<char>>,
    ) -> Result<(), Failure> {
        match self.effective_count(required, tags, added, removed) {
            Err(failure) => Err(failure),
            Ok(count) => if count == 0 {
                Err(Failure::RequiresTags(spec.tag, spec.rules.required_tags))
            } else {
                Ok(())
            },
        }
    }

    /// How many tags may count towards a conflicting name before the
    /// conflict is real: one, if the name is a group and the tag under
    /// evaluation is itself present; none otherwise.
    pub open spec fn tolerance(
        self,
        tag: Seq<char>,
        conflicting: Seq<char>,
        tags: Seq<Seq<char>>,
        added: Seq<Seq<char>>,
    ) -> Result<nat, Failure> {
        if !self.is_group(conflicting) {
            Ok(0)
        } else {
            match self.check_tag(tag, tags) {
                Err(failure) => Err(failure),
                Ok(current) => if current {
                    Ok(1)
                } else {
                    match self.check_tag(tag, added) {
                        Err(failure) => Err(failure),
                        Ok(new) => Ok(
                            if new {
                                1
                            } else {
                                0
                            },
                        ),
                    }
                },
            }
        }
    }

    /// The outcome of one conflict of `spec`.
    pub open spec fn conflict(
        self,
        spec: TagRules,
        conflicting: Seq<char>,
        tags: Seq<Seq<char>>,
        added: Seq<Seq<char>>,
        removed: Seq<Seq<char>>,
    ) -> Result<(), Failure> {
        match self.tolerance(spec.tag, conflicting, tags, added) {
            Err(failure) => Err(failure),
            Ok(limit) => match self.effective_count(conflicting, tags, added, removed) {
                Err(failure) => Err(failure),
                Ok(count) => if count > limit {
                    Err(Failure::IncompatibleTags(spec.tag, conflicting))
                } else {
                    Ok(())
                },
            },
        }
    }

    /// The outcomes of the requirements of `spec`, then of its conflicts, in
    /// the order in which the rules list them.
    pub open spec fn rule_outcomes(
        self,
        spec: TagRules,
        tags: Seq<Seq<char>>,
        added: Seq<Seq<char>>,
        removed: Seq<Seq<char>>,
    ) -> Seq<Result<(), Failure>> {
        spec.rules.required_tags.map_values(
            |required: Seq<char>| self.requirement(spec, required, tags, added, removed),
        ) + spec.rules.conflicting_tags.map_values(
            |conflicting: Seq<char>| self.conflict(spec, conflicting, tags, added, removed),
        )
    }

    /// The verdict of one tag's rules on a change.
    ///
    /// A change that adds and removes one tag is refused outright. A tag
    /// that the change touches passes its role gate first. Then come its
    /// requirements and its conflicts; the first of them to fail decides.
    pub open spec fn verdict(
        self,
        spec: TagRules,
        tags: Seq<Seq<char>>,
        added: Seq<Seq<char>>,
        removed: Seq<Seq<char>>,
        held: Seq<Seq<char>>,
    ) -> Result<(), Failure> {
        if overlap(added, removed) {
            Err(Failure::Other(BOTH_ADDED_AND_REMOVED@))
        } else if (added.contains(spec.tag) || removed.contains(spec.tag)) && !gate_open(
            spec.rules.needed_roles,
            held,
        ) {
            Err(Failure::MissingRoles(spec.rules.needed_roles))
        } else {
            first_failure(self.rule_outcomes(spec, tags, added, removed))
        }
    }

    // ---- the whole tagset ----------------------------------------------

    /// The verdict on one entry of the current tagset: it must be a proper
    /// tag, and its rules must be observed.
    pub open spec fn verdict_on(
        self,
        tag: Seq<char>,
        tags: Seq<Seq<char>>,
        added: Seq<Seq<char>>,
        removed: Seq<Seq<char>>,
        held: Seq<Seq<char>>,
    ) -> Result<(), Failure> {
        if self.specs.contains_key(tag) {
            self.verdict(self.specs[tag], tags, added, removed, held)
        } else {
            Err(Failure::MissingTag(tag))
        }
    }

    /// The verdicts on the entries of the current tagset, in order.
    pub open spec fn verdicts(
        self,
        tags: Seq<Seq<char>>,
        added: Seq<Seq<char>>,
        removed: Seq<Seq<char>>,
        held: Seq<Seq<char>>,
    ) -> Seq<Result<(), Failure>> {
        tags.map_values(|tag: Seq<char>| self.verdict_on(tag, tags, added, removed, held))
    }

    /// Whether the tagset `tags` may be changed by adding `added` and
    /// removing `removed`, by an actor who holds the roles `held`.
    ///
    /// An unregistered role among `held` is reported first, then a name that
    /// is both added and removed. After that every entry of `tags` is
    /// judged, in order, and the first failure decides.
    pub open spec fn validate(
        self,
        tags: Seq<Seq<char>>,
        added: Seq<Seq<char>>,
        removed: Seq<Seq<char>>,
        held: Seq<Seq<char>>,
    ) -> Result<(), Failure> {
        match first_match(held, self.unknown_role()) {
            Some(stranger) => Err(Failure::MissingRole(stranger)),
            None => if overlap(added, removed) {
                Err(Failure::Other(BOTH_ADDED_AND_REMOVED@))
            } else {
                first_failure(self.verdicts(tags, added, removed, held))
            },
        }
    }
}

// ---- how the first match is found -----------------------------------------

/// An element that satisfies `p`, with none before it that does, is the first
/// match.
pub proof fn lemma_first_match_at<A>(s: Seq<A>, p: spec_fn(A) -> bool, i: int)
    requires
        0 <= i < s.len(),
        p(s[i]),
        forall|j: int| 0 <= j < i ==> !p(#[trigger] s[j]),
    ensures
        first_match(s, p) == Some(s[i]),
{
    let head = s.take(i);
    let tail = s.skip(i);
    assert(s =~= head + tail);
    Seq::filter_distributes_over_add(head, tail, p);
    head.lemma_all_neg_filter_empty(p);
    assert(tail =~= seq![s[i]] + tail.skip(1));
    Seq::filter_distributes_over_add(seq![s[i]], tail.skip(1), p);
    assert(seq![s[i]] =~= Seq::<A>::empty().push(s[i]));
    Seq::<A>::empty().lemma_filter_push(s[i], p);
    reveal(Seq::filter);
    assert(Seq::<A>::empty().filter(p) =~= Seq::<A>::empty());
    assert(s.filter(p)[0] == s[i]);
}

/// Where no element satisfies `p`, there is no first match.
pub proof fn lemma_first_match_none<A>(s: Seq<A>, p: spec_fn(A) -> bool)
    requires
        forall|j: int| 0 <= j < s.len() ==> !p(#[trigger] s[j]),
    ensures
        first_match(s, p) == None::<A>,
{
    s.lemma_all_neg_filter_empty(p);
}

/// A first match satisfies `p`, and stands in `s` with no match before it.
pub proof fn lemma_first_match_found<A>(s: Seq<A>, p: spec_fn(A) -> bool) -> (i: int)
    requires
        first_match(s, p) is Some,
    ensures
        0 <= i < s.len(),
        s[i] == first_match(s, p)->0,
        p(s[i]),
        forall|j: int| 0 <= j < i ==> !p(#[trigger] s[j]),
    decreases s.len(),
{
    reveal(Seq::filter);
    if s.len() == 0 {
        0
    } else if exists|j: int| 0 <= j < s.len() - 1 && p(#[trigger] s[j]) {
        let j = choose|j: int| 0 <= j < s.len() - 1 && p(#[trigger] s[j]);
        let front = s.drop_last();
        assert(front[j] == s[j]);
        front.lemma_filter_contains(p, j);
        assert(front.filter(p).len() > 0);
        let i = lemma_first_match_found(front, p);
        assert(front.filter(p)[0] == s.filter(p)[0]);
        assert forall|k: int| 0 <= k < i implies !p(#[trigger] s[k]) by {
            assert(front[k] == s[k]);
        }
        i
    } else {
        let front = s.drop_last();
        assert forall|k: int| 0 <= k < front.len() implies !p(#[trigger] front[k]) by {
            assert(front[k] == s[k]);
        }
        front.lemma_all_neg_filter_empty(p);
        s.len() - 1
    }
}

} // verus!
