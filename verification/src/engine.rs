use crate::error::{outcome, tally, Error};
use crate::laws::lemma_tags_that_stay_need_no_role;
use crate::model::{
    all_stay, failed, lemma_first_match_at, lemma_first_match_none, Failure, Registry, TagRules,
    BOTH_ADDED_AND_REMOVED,
};
use crate::tag::rules::{contains_tag, overlaps};
use crate::tag::{role_names, tag_names, Role, Tag, TagSpec, TemplateTagSpec};
use vstd::prelude::*;

verus! {

/// The names under which a list of rule records is kept, in order.
pub open spec fn entry_keys(entries: Seq<(Tag, TagSpec)>) -> Seq<Seq<char>> {
    entries.map_values(|entry: (Tag, TagSpec)| entry.0@)
}

/// The map that a list of rule records stands for.
pub open spec fn entry_map(entries: Seq<(Tag, TagSpec)>) -> Map<Seq<char>, TagRules> {
    Map::new(
        |name: Seq<char>| entry_keys(entries).contains(name),
        |name: Seq<char>| entries[entry_keys(entries).index_of(name)].1@,
    )
}

/// Each record of the list is bound to the name that it is kept under.
pub open spec fn entries_bound(entries: Seq<(Tag, TagSpec)>) -> bool {
    forall|i: int| 0 <= i < entries.len() ==> (#[trigger] entries[i]).1@.tag == entries[i].0@
}

/// With no name kept twice, each record is what the map holds under its
/// name.
pub proof fn lemma_entry_map(entries: Seq<(Tag, TagSpec)>)
    requires
        entry_keys(entries).no_duplicates(),
    ensures
        forall|i: int|
            0 <= i < entries.len() ==> entry_map(entries).contains_key(
                #[trigger] entry_keys(entries)[i],
            ) && entry_map(entries)[entry_keys(entries)[i]] == entries[i].1@,
        forall|name: Seq<char>| #[trigger]
            entry_map(entries).contains_key(name) <==> entry_keys(entries).contains(name),
{
    let keys = entry_keys(entries);
    assert forall|i: int| 0 <= i < entries.len() implies entry_map(entries).contains_key(
        #[trigger] keys[i],
    ) && entry_map(entries)[keys[i]] == entries[i].1@ by {
        assert(keys.contains(keys[i]));
        let k = keys.index_of(keys[i]);
        assert(0 <= k < keys.len() && keys[k] == keys[i]);
    }
}

/// A map that holds each record under its name, and nothing else, is the map
/// that the list stands for.
proof fn lemma_entry_map_is(entries: Seq<(Tag, TagSpec)>, map: Map<Seq<char>, TagRules>)
    requires
        entry_keys(entries).no_duplicates(),
        forall|i: int|
            0 <= i < entries.len() ==> map.contains_key(#[trigger] entry_keys(entries)[i])
                && map[entry_keys(entries)[i]] == entries[i].1@,
        forall|name: Seq<char>| #[trigger]
            map.contains_key(name) ==> entry_keys(entries).contains(name),
    ensures
        entry_map(entries) == map,
{
    lemma_entry_map(entries);
    assert forall|name: Seq<char>| #[trigger]
        entry_map(entries).contains_key(name) implies entry_map(entries)[name] == map[name] by {
        let i = entry_keys(entries).index_of(name);
        assert(entry_keys(entries)[i] == name);
    }
    assert(entry_map(entries) =~= map);
}

/// Records that were bound stay bound where they are kept under the same
/// names and bound to the same tags.
proof fn lemma_still_bound(kept: Seq<(Tag, TagSpec)>, now: Seq<(Tag, TagSpec)>)
    requires
        entries_bound(kept),
        now.len() == kept.len(),
        entry_keys(now) == entry_keys(kept),
        forall|j: int| 0 <= j < kept.len() ==> (#[trigger] now[j]).1@.tag == kept[j].1@.tag,
    ensures
        entries_bound(now),
{
    assert forall|j: int| 0 <= j < now.len() implies (#[trigger] now[j]).1@.tag == now[j].0@ by {
        assert(entry_keys(now)[j] == entry_keys(kept)[j]);
        assert(kept[j].1@.tag == kept[j].0@);
    }
}

/// Taking one name out of a list without duplicates takes it out of the set.
proof fn lemma_names_remove(names: Seq<Seq<char>>, k: int)
    requires
        names.no_duplicates(),
        0 <= k < names.len(),
    ensures
        names.remove(k).no_duplicates(),
        names.remove(k).to_set() == names.to_set().remove(names[k]),
        !names.remove(k).contains(names[k]),
{
    let rest = names.remove(k);
    assert forall|i: int| 0 <= i < rest.len() implies #[trigger] rest[i] == names[if i < k {
        i
    } else {
        i + 1
    }] by {}
    assert forall|name: Seq<char>| #[trigger]
        rest.to_set().contains(name) <==> names.to_set().remove(names[k]).contains(name) by {
        if rest.contains(name) {
            let i = choose|i: int| 0 <= i < rest.len() && rest[i] == name;
            let j = if i < k {
                i
            } else {
                i + 1
            };
            assert(names[j] == name);
        }
        if names.contains(name) && name != names[k] {
            let j = choose|j: int| 0 <= j < names.len() && names[j] == name;
            let i = if j < k {
                j
            } else {
                j - 1
            };
            assert(rest[i] == name);
        }
    }
    assert(rest.to_set() =~= names.to_set().remove(names[k]));
    if rest.contains(names[k]) {
        let i = choose|i: int| 0 <= i < rest.len() && rest[i] == names[k];
        assert(rest[i] == names[if i < k {
            i
        } else {
            i + 1
        }]);
    }
}

/// Adding a new name to a list without duplicates adds it to the set.
proof fn lemma_names_push(names: Seq<Seq<char>>, name: Seq<char>)
    requires
        names.no_duplicates(),
        !names.contains(name),
    ensures
        names.push(name).no_duplicates(),
        names.push(name).to_set() == names.to_set().insert(name),
{
    let more = names.push(name);
    assert forall|i: int, j: int|
        0 <= i < more.len() && 0 <= j < more.len() && i != j implies more[i] != more[j] by {
        if i < names.len() {
            assert(names.contains(more[i]));
        }
        if j < names.len() {
            assert(names.contains(more[j]));
        }
    }
    assert forall|n: Seq<char>| #[trigger]
        more.to_set().contains(n) <==> names.to_set().insert(name).contains(n) by {
        if more.contains(n) {
            let i = choose|i: int| 0 <= i < more.len() && more[i] == n;
            if i < names.len() {
                assert(names[i] == n);
            }
        }
        if names.contains(n) {
            let i = choose|i: int| 0 <= i < names.len() && names[i] == n;
            assert(more[i] == n);
        }
        if n == name {
            assert(more[names.len() as int] == n);
        }
    }
    assert(more.to_set() =~= names.to_set().insert(name));
}

/// A representation of a complete configuration of tags, groups, and roles.
///
/// Decides whether a tagset, or a change to one, is valid under the rules
/// registered in it, and answers what is registered. The consumer sees to
/// it that the tags, groups and roles that rules refer to are registered
/// before they are used.
///
/// The registered names, the rule records and the roles are kept in lists
/// in which no name occurs twice, and each rule record is bound to the tag
/// that it is kept under; see [`Engine::wf`]. What the engine stands for is
/// a [`Registry`].
#[derive(Debug)]
pub struct Engine {
    specs: Vec<(Tag, TagSpec)>,
    tags: Vec<Tag>,
    roles: Vec<Role>,
}

impl View for Engine {
    type V = Registry;

    closed spec fn view(&self) -> Registry {
        Registry {
            specs: entry_map(self.specs@),
            tags: tag_names(self.tags@).to_set(),
            roles: role_names(self.roles@).to_set(),
        }
    }
}

impl Default for Engine {
    /// The engine with nothing registered.
    fn default() -> (engine: Engine)
        ensures
            engine.wf(),
            engine@ == Registry::empty(),
    {
        let engine = Engine { specs: Vec::new(), tags: Vec::new(), roles: Vec::new() };
        proof {
            assert(engine@.specs =~= Map::empty());
            assert(engine@.tags =~= Set::empty());
            assert(engine@.roles =~= Set::empty());
        }
        engine
    }
}

impl Engine {
    /// No tag, no rule record and no role is kept twice, and each rule
    /// record is bound to the tag that it is kept under.
    pub closed spec fn wf(&self) -> bool {
        &&& entry_keys(self.specs@).no_duplicates()
        &&& entries_bound(self.specs@)
        &&& tag_names(self.tags@).no_duplicates()
        &&& role_names(self.roles@).no_duplicates()
    }

    /// In the registry that an engine stands for, each rule record is bound
    /// to the name that it is kept under.
    pub proof fn lemma_records_are_bound(&self)
        requires
            self.wf(),
        ensures
            self@.bound(),
    {
        lemma_entry_map(self.specs@);
        assert forall|n: Seq<char>| self@.specs.contains_key(n) implies (
        #[trigger] self@.specs[n]).tag == n by {
            let i = entry_keys(self.specs@).index_of(n);
            assert(entry_keys(self.specs@)[i] == n);
            assert(self.specs@[i].1@.tag == self.specs@[i].0@);
        }
    }

    /// Where the rule record of that name is kept, if there is one.
    fn find_entry(&self, name: &str) -> (place: Option<usize>)
        ensures
            match place {
                Some(k) => k < self.specs@.len() && entry_keys(self.specs@)[k as int] == name@
                    && entry_keys(self.specs@).contains(name@),
                None => !entry_keys(self.specs@).contains(name@),
            },
    {
        let mut i: usize = 0;
        while i < self.specs.len()
            invariant
                0 <= i <= self.specs.len(),
                forall|j: int| 0 <= j < i ==> entry_keys(self.specs@)[j] != name@,
            decreases self.specs.len() - i,
        {
            if self.specs[i].0.is_named(name) {
                assert(entry_keys(self.specs@)[i as int] == name@);
                return Some(i);
            }
            i += 1;
        }
        None
    }

    /// Where the tag of that name is kept, if there is one.
    fn find_tag(&self, name: &str) -> (place: Option<usize>)
        ensures
            match place {
                Some(k) => k < self.tags@.len() && tag_names(self.tags@)[k as int] == name@
                    && tag_names(self.tags@).contains(name@),
                None => !tag_names(self.tags@).contains(name@),
            },
    {
        let mut i: usize = 0;
        while i < self.tags.len()
            invariant
                0 <= i <= self.tags.len(),
                forall|j: int| 0 <= j < i ==> tag_names(self.tags@)[j] != name@,
            decreases self.tags.len() - i,
        {
            if self.tags[i].is_named(name) {
                assert(tag_names(self.tags@)[i as int] == name@);
                return Some(i);
            }
            i += 1;
        }
        None
    }

    /// Where the role of that name is kept, if there is one.
    fn find_role(&self, name: &str) -> (place: Option<usize>)
        ensures
            match place {
                Some(k) => k < self.roles@.len() && role_names(self.roles@)[k as int] == name@
                    && role_names(self.roles@).contains(name@),
                None => !role_names(self.roles@).contains(name@),
            },
    {
        let mut i: usize = 0;
        while i < self.roles.len()
            invariant
                0 <= i <= self.roles.len(),
                forall|j: int| 0 <= j < i ==> role_names(self.roles@)[j] != name@,
            decreases self.roles.len() - i,
        {
            if self.roles[i].is_named(name) {
                assert(role_names(self.roles@)[i as int] == name@);
                return Some(i);
            }
            i += 1;
        }
        None
    }

    /// Registers a tag with the given rules, and returns it. A tag that
    /// was registered before stays registered, with the new rules in place
    /// of the old.
    pub fn add_tag(&mut self, name: &str, spec: TemplateTagSpec) -> (tag: Tag)
        requires
            old(self).wf(),
            name@.len() > 0,
        ensures
            final(self).wf(),
            tag@ == name@,
            final(self)@ == old(self)@.add_tag(name@, spec@),
    {
        let tag = Tag::new(name);
        let bound = TagSpec::from_template(&tag, spec);
        let ghost before = self.specs@;
        let ghost target = entry_map(before).insert(name@, bound@);
        proof {
            lemma_entry_map(before);
        }
        match self.find_entry(name) {
            Some(k) => {
                self.specs[k].1 = bound;
                proof {
                    assert(entry_keys(self.specs@) =~= entry_keys(before));
                    lemma_entry_map_is(self.specs@, target);
                }
            },
            None => {
                self.specs.push((tag.clone(), bound));
                proof {
                    assert(entry_keys(self.specs@) =~= entry_keys(before).push(name@));
                    lemma_names_push(entry_keys(before), name@);
                    assert forall|n: Seq<char>| #[trigger]
                        target.contains_key(n) implies entry_keys(self.specs@).contains(n) by {
                        if n == name@ {
                            assert(entry_keys(self.specs@)[before.len() as int] == n);
                        } else {
                            let i = entry_keys(before).index_of(n);
                            assert(entry_keys(self.specs@)[i] == n);
                        }
                    }
                    assert forall|i: int| 0 <= i < self.specs@.len() implies target.contains_key(
                        #[trigger] entry_keys(self.specs@)[i],
                    ) && target[entry_keys(self.specs@)[i]] == self.specs@[i].1@ by {
                        if i < before.len() {
                            assert(entry_keys(before)[i] == entry_keys(self.specs@)[i]);
                            assert(entry_keys(before).contains(entry_keys(before)[i]));
                        }
                    }
                    lemma_entry_map_is(self.specs@, target);
                }
            },
        }
        self.register(tag.clone());
        tag
    }

    /// Keeps the tag among the registered names, if it is not there yet.
    fn register(&mut self, tag: Tag)
        requires
            old(self).wf(),
        ensures
            final(self).wf(),
            final(self).specs == old(self).specs,
            final(self).roles == old(self).roles,
            final(self)@.tags == old(self)@.tags.insert(tag@),
    {
        let ghost names = tag_names(self.tags@);
        if self.find_tag(tag.as_str()).is_none() {
            self.tags.push(tag);
            proof {
                assert(tag_names(self.tags@) =~= names.push(tag@));
                lemma_names_push(names, tag@);
            }
        } else {
            assert(names.to_set().insert(tag@) =~= names.to_set());
        }
    }

    /// Takes the name out of the registered names, if it is there.
    fn unregister(&mut self, name: &str)
        requires
            old(self).wf(),
        ensures
            final(self).wf(),
            final(self).specs == old(self).specs,
            final(self).roles == old(self).roles,
            final(self)@.tags == old(self)@.tags.remove(name@),
    {
        let ghost names = tag_names(self.tags@);
        match self.find_tag(name) {
            Some(k) => {
                self.tags.remove(k);
                proof {
                    assert(tag_names(self.tags@) =~= names.remove(k as int));
                    lemma_names_remove(names, k as int);
                }
            },
            None => {
                assert(names.to_set().remove(name@) =~= names.to_set());
            },
        }
    }

    /// Unregisters a tag with its rules, and strikes it out of the
    /// requirements and conflicts of all other tags. Nothing is
    /// unregistered if the tag was not registered.
    pub fn delete_tag(&mut self, tag: &Tag)
        requires
            old(self).wf(),
        ensures
            final(self).wf(),
            final(self)@ == old(self)@.delete_tag(tag@),
    {
        let ghost before = self.specs@;
        let ghost target = old(self)@.delete_tag(tag@).specs;
        proof {
            lemma_entry_map(before);
        }
        match self.find_entry(tag.as_str()) {
            Some(k) => {
                self.specs.remove(k);
                proof {
                    assert(entry_keys(self.specs@) =~= entry_keys(before).remove(k as int));
                    assert forall|i: int| 0 <= i < self.specs@.len() implies (
                    #[trigger] self.specs@[i]).1@.tag == self.specs@[i].0@ by {
                        assert(self.specs@[i] == before[if i < k {
                            i
                        } else {
                            i + 1
                        }]);
                    }
                    lemma_names_remove(entry_keys(before), k as int);
                }
            },
            None => {},
        }
        let ghost kept = self.specs@;
        proof {
            assert forall|i: int| 0 <= i < kept.len() implies entry_map(before).contains_key(
                #[trigger] entry_keys(kept)[i],
            ) && entry_map(before)[entry_keys(kept)[i]] == kept[i].1@ && entry_keys(kept)[i]
                != tag@ by {
                assert(entry_keys(kept).contains(entry_keys(kept)[i]));
                let j = if before.len() == kept.len() || i < entry_keys(before).index_of(tag@) {
                    i
                } else {
                    i + 1
                };
                assert(kept[i] == before[j]);
                assert(entry_keys(before)[j] == entry_keys(kept)[i]);
            }
            assert forall|n: Seq<char>|
                n != tag@ && entry_keys(before).contains(n) implies #[trigger] entry_keys(
                kept,
            ).contains(n) by {
                let j = entry_keys(before).index_of(n);
                assert(entry_keys(before)[j] == n);
                if before.len() != kept.len() {
                    let k = entry_keys(before).index_of(tag@);
                    let i = if j < k {
                        j
                    } else {
                        j - 1
                    };
                    assert(kept[i] == before[j]);
                    assert(entry_keys(kept)[i] == n);
                } else {
                    assert(entry_keys(kept)[j] == n);
                }
            }
        }
        let mut i: usize = 0;
        while i < self.specs.len()
            invariant
                0 <= i <= self.specs.len(),
                self.specs@.len() == kept.len(),
                entry_keys(self.specs@) == entry_keys(kept),
                self.tags == old(self).tags,
                self.roles == old(self).roles,
                forall|j: int|
                    0 <= j < kept.len() ==> (#[trigger] self.specs@[j]).1@ == if j < i {
                        kept[j].1@.without_tag(tag@)
                    } else {
                        kept[j].1@
                    },
            decreases self.specs.len() - i,
        {
            let ghost keys = entry_keys(self.specs@);
            self.specs[i].1.strip_tag(tag);
            assert(entry_keys(self.specs@) =~= keys);
            i += 1;
        }
        proof {
            assert forall|j: int| 0 <= j < self.specs@.len() implies target.contains_key(
                #[trigger] entry_keys(self.specs@)[j],
            ) && target[entry_keys(self.specs@)[j]] == self.specs@[j].1@ by {
                assert(entry_keys(kept)[j] == entry_keys(self.specs@)[j]);
                assert(self.specs@[j].1@ == kept[j].1@.without_tag(tag@));
            }
            lemma_entry_map_is(self.specs@, target);
            lemma_still_bound(kept, self.specs@);
        }
        self.unregister(tag.as_str());
    }

    /// Registers a tag group, and returns it. A proper tag of that name
    /// keeps its rules.
    pub fn add_group(&mut self, name: &str) -> (group: Tag)
        requires
            old(self).wf(),
            name@.len() > 0,
        ensures
            final(self).wf(),
            group@ == name@,
            final(self)@ == old(self)@.add_group(name@),
    {
        let group = Tag::new(name);
        self.register(group.clone());
        group
    }

    /// Unregisters a tag group, and strikes it out of the groups of all
    /// tags. Nothing is unregistered if the name was not registered, or if
    /// it is the name of a proper tag: that is no group, and stays.
    pub fn delete_group(&mut self, group: &Tag)
        requires
            old(self).wf(),
        ensures
            final(self).wf(),
            final(self)@ == old(self)@.delete_group(group@),
    {
        let ghost kept = self.specs@;
        let ghost target = old(self)@.delete_group(group@).specs;
        proof {
            lemma_entry_map(kept);
        }
        let mut i: usize = 0;
        while i < self.specs.len()
            invariant
                0 <= i <= self.specs.len(),
                self.specs@.len() == kept.len(),
                entry_keys(self.specs@) == entry_keys(kept),
                self.tags == old(self).tags,
                self.roles == old(self).roles,
                forall|j: int|
                    0 <= j < kept.len() ==> (#[trigger] self.specs@[j]).1@ == if j < i {
                        kept[j].1@.without_group(group@)
                    } else {
                        kept[j].1@
                    },
            decreases self.specs.len() - i,
        {
            let ghost keys = entry_keys(self.specs@);
            self.specs[i].1.strip_group(group);
            assert(entry_keys(self.specs@) =~= keys);
            i += 1;
        }
        proof {
            assert forall|j: int| 0 <= j < self.specs@.len() implies target.contains_key(
                #[trigger] entry_keys(self.specs@)[j],
            ) && target[entry_keys(self.specs@)[j]] == self.specs@[j].1@ by {
                assert(entry_keys(kept)[j] == entry_keys(self.specs@)[j]);
                assert(self.specs@[j].1@ == kept[j].1@.without_group(group@));
            }
            lemma_entry_map_is(self.specs@, target);
            lemma_still_bound(kept, self.specs@);
        }
        if self.find_entry(group.as_str()).is_none() {
            self.unregister(group.as_str());
        }
    }

    /// Registers a role, and returns it.
    pub fn add_role(&mut self, name: &str) -> (role: Role)
        requires
            old(self).wf(),
            name@.len() > 0,
        ensures
            final(self).wf(),
            role@ == name@,
            final(self)@ == old(self)@.add_role(name@),
    {
        let role = Role::new(name);
        let ghost names = role_names(self.roles@);
        if self.find_role(name).is_none() {
            self.roles.push(role.clone());
            proof {
                assert(role_names(self.roles@) =~= names.push(name@));
                lemma_names_push(names, name@);
            }
        } else {
            assert(names.to_set().insert(name@) =~= names.to_set());
        }
        role
    }

    /// Unregisters a role, and strikes it out of the needed roles of all
    /// tags. Nothing is unregistered if the role was not registered.
    pub fn delete_role(&mut self, role: &Role)
        requires
            old(self).wf(),
        ensures
            final(self).wf(),
            final(self)@ == old(self)@.delete_role(role@),
    {
        let ghost kept = self.specs@;
        let ghost target = old(self)@.delete_role(role@).specs;
        let ghost names = role_names(self.roles@);
        proof {
            lemma_entry_map(kept);
        }
        match self.find_role(role.as_str()) {
            Some(k) => {
                self.roles.remove(k);
                proof {
                    assert(role_names(self.roles@) =~= names.remove(k as int));
                    lemma_names_remove(names, k as int);
                }
            },
            None => {
                assert(names.to_set().remove(role@) =~= names.to_set());
            },
        }
        let ghost roles = self.roles;
        let mut i: usize = 0;
        while i < self.specs.len()
            invariant
                0 <= i <= self.specs.len(),
                self.specs@.len() == kept.len(),
                entry_keys(self.specs@) == entry_keys(kept),
                self.tags == old(self).tags,
                self.roles == roles,
                forall|j: int|
                    0 <= j < kept.len() ==> (#[trigger] self.specs@[j]).1@ == if j < i {
                        kept[j].1@.without_role(role@)
                    } else {
                        kept[j].1@
                    },
            decreases self.specs.len() - i,
        {
            let ghost keys = entry_keys(self.specs@);
            self.specs[i].1.strip_role(role);
            assert(entry_keys(self.specs@) =~= keys);
            i += 1;
        }
        proof {
            assert forall|j: int| 0 <= j < self.specs@.len() implies target.contains_key(
                #[trigger] entry_keys(self.specs@)[j],
            ) && target[entry_keys(self.specs@)[j]] == self.specs@[j].1@ by {
                assert(entry_keys(kept)[j] == entry_keys(self.specs@)[j]);
                assert(self.specs@[j].1@ == kept[j].1@.without_role(role@));
            }
            lemma_entry_map_is(self.specs@, target);
            lemma_still_bound(kept, self.specs@);
        }
    }

    /// All registered tags and tag groups, each once.
    pub fn get_tags(&self) -> (tags: &Vec<Tag>)
        requires
            self.wf(),
        ensures
            tag_names(tags@).no_duplicates(),
            tag_names(tags@).to_set() == self@.tags,
    {
        &self.tags
    }

    /// The rule records of all proper tags, each with the name it is kept
    /// under. Tag groups have none.
    pub fn get_specs(&self) -> (specs: &Vec<(Tag, TagSpec)>)
        requires
            self.wf(),
        ensures
            entry_keys(specs@).no_duplicates(),
            entry_map(specs@) == self@.specs,
    {
        &self.specs
    }

    /// All registered roles, each once.
    pub fn get_roles(&self) -> (roles: &Vec<Role>)
        requires
            self.wf(),
        ensures
            role_names(roles@).no_duplicates(),
            role_names(roles@).to_set() == self@.roles,
    {
        &self.roles
    }

    /// Gets the rule record associated with a tag.
    pub fn get_spec(&self, tag: &Tag) -> (result: Result<&TagSpec, Error>)
        requires
            self.wf(),
        ensures
            match result {
                Ok(spec) => self@.specs.contains_key(tag@) && spec@ == self@.specs[tag@]
                    && spec@.tag == tag@,
                Err(error) => !self@.specs.contains_key(tag@) && error@ == Failure::MissingTag(
                    tag@,
                ),
            },
    {
        proof {
            lemma_entry_map(self.specs@);
            self.lemma_records_are_bound();
        }
        match self.find_entry(tag.as_str()) {
            Some(k) => Ok(&self.specs[k].1),
            None => Err(Error::MissingTag(tag.clone())),
        }
    }

    /// Gets the rule record associated with a tag, for editing its rules.
    /// The engine keeps what the caller leaves in it, and stays well-formed
    /// as long as the record is left bound to its tag.
    pub fn get_spec_mut(&mut self, tag: &Tag) -> (result: Result<&mut TagSpec, Error>)
        requires
            old(self).wf(),
        ensures
            match result {
                Ok(spec) => old(self)@.specs.contains_key(tag@) && spec@ == old(self)@.specs[tag@]
                    && spec@.tag == tag@ && final(self)@ == old(self)@.with_spec(
                    tag@,
                    final(spec)@,
                ) && (final(spec)@.tag == tag@ ==> final(self).wf()),
                Err(error) => !old(self)@.specs.contains_key(tag@) && error@
                    == Failure::MissingTag(tag@) && final(self)@ == old(self)@ && final(self).wf(),
            },
    {
        let ghost before = self.specs@;
        proof {
            lemma_entry_map(before);
            self.lemma_records_are_bound();
        }
        match self.find_entry(tag.as_str()) {
            Some(k) => {
                let spec = &mut self.specs[k].1;
                proof {
                    let after = before.update(k as int, (before[k as int].0, *final(spec)));
                    assert(entry_keys(after) =~= entry_keys(before));
                    assert(entry_keys(before)[k as int] == before[k as int].0@);
                    lemma_entry_map_is(after, entry_map(before).insert(tag@, final(spec)@));
                    assert forall|i: int|
                        0 <= i < after.len() && final(spec)@.tag == tag@ implies (
                    #[trigger] after[i]).1@.tag == after[i].0@ by {
                        if i != k {
                            assert(after[i] == before[i]);
                        }
                    }
                }
                Ok(spec)
            },
            None => Err(Error::MissingTag(tag.clone())),
        }
    }

    /// Determines if a tag or tag group with the given name is registered.
    pub fn has_tag(&self, name: &str) -> (found: bool)
        requires
            self.wf(),
        ensures
            found == self@.tags.contains(name@),
    {
        self.find_tag(name).is_some()
    }

    /// Gets the tag or tag group with the given name.
    pub fn get_tag(&self, name: &str) -> (result: Result<Tag, Error>)
        requires
            self.wf(),
        ensures
            match result {
                Ok(tag) => self@.tags.contains(name@) && tag@ == name@,
                Err(error) => !self@.tags.contains(name@) && error@ == Failure::NoSuchTag(name@),
            },
    {
        match self.find_tag(name) {
            Some(k) => Ok(self.tags[k].clone()),
            None => Err(Error::NoSuchTag(name.to_owned())),
        }
    }

    /// Determines if the given tag is registered as a group: registered,
    /// and without rules of its own.
    pub fn is_group(&self, tag: &Tag) -> (group: bool)
        requires
            self.wf(),
        ensures
            group == self@.is_group(tag@),
    {
        proof {
            lemma_entry_map(self.specs@);
        }
        self.find_tag(tag.as_str()).is_some() && self.find_entry(tag.as_str()).is_none()
    }

    /// Determines if a role with the given name is registered.
    pub fn has_role(&self, name: &str) -> (found: bool)
        requires
            self.wf(),
        ensures
            found == self@.roles.contains(name@),
    {
        self.find_role(name).is_some()
    }

    /// Gets the role with the given name.
    pub fn get_role(&self, name: &str) -> (result: Result<Role, Error>)
        requires
            self.wf(),
        ensures
            match result {
                Ok(role) => self@.roles.contains(name@) && role@ == name@,
                Err(error) => !self@.roles.contains(name@) && error@ == Failure::NoSuchRole(
                    name@,
                ),
            },
    {
        match self.find_role(name) {
            Some(k) => Ok(self.roles[k].clone()),
            None => Err(Error::NoSuchRole(name.to_owned())),
        }
    }

    /// Counts the tags in the list that are the given tag or members of the
    /// given group. Each entry of the list is counted as often as it occurs.
    ///
    /// The list is one of proper tags: the first entry that is not one is
    /// reported as missing, be it a group or not registered at all.
    pub fn count_tag(&self, check: &Tag, tags: &[Tag]) -> (result: Result<usize, Error>)
        requires
            self.wf(),
        ensures
            tally(result) == self@.count_tag(check@, tag_names(tags@)),
    {
        let ghost names = tag_names(tags@);
        let ghost registry = self@;
        let mut count: usize = 0;
        let mut i: usize = 0;
        proof {
            lemma_entry_map(self.specs@);
            assert(names.take(0) =~= Seq::empty());
            reveal(Seq::filter);
            assert(names.take(0).filter(registry.counting(check@)).len() == 0);
        }
        while i < tags.len()
            invariant
                0 <= i <= tags.len(),
                self.wf(),
                registry == self@,
                names == tag_names(tags@),
                forall|j: int| 0 <= j < i ==> registry.specs.contains_key(#[trigger] names[j]),
                count == names.take(i as int).filter(registry.counting(check@)).len(),
                count <= i,
            decreases tags.len() - i,
        {
            let tag = &tags[i];
            assert(names[i as int] == tag@);
            proof {
                names.lemma_take_succ_push(i as int);
                names.take(i as int).lemma_filter_push(names[i as int], registry.counting(check@));
            }
            match self.get_spec(tag) {
                Err(error) => {
                    proof {
                        assert forall|j: int| 0 <= j < i implies !(registry.unknown_tag())(
                            #[trigger] names[j],
                        ) by {}
                        lemma_first_match_at(names, registry.unknown_tag(), i as int);
                    }
                    return Err(error);
                },
                Ok(spec) => {
                    if *tag == *check || contains_tag(spec.groups.as_slice(), check) {
                        proof {
                            spec.lemma_view();
                        }
                        count += 1;
                    } else {
                        proof {
                            spec.lemma_view();
                        }
                    }
                },
            }
            i += 1;
        }
        proof {
            assert(names.take(i as int) =~= names);
            assert forall|j: int| 0 <= j < names.len() implies !(registry.unknown_tag())(
                #[trigger] names[j],
            ) by {}
            lemma_first_match_none(names, registry.unknown_tag());
        }
        Ok(count)
    }

    /// Determines if the given tag or group is present in the list: for a
    /// group, whether some listed tag is a member; for any other name,
    /// whether it is listed.
    ///
    /// The list is one of proper tags, as for [`Engine::count_tag`].
    pub fn check_tag(&self, check: &Tag, tags: &[Tag]) -> (result: Result<bool, Error>)
        requires
            self.wf(),
        ensures
            outcome(result) == self@.check_tag(check@, tag_names(tags@)),
    {
        match self.count_tag(check, tags) {
            Err(error) => Err(error),
            Ok(count) => {
                if self.is_group(check) {
                    Ok(count > 0)
                } else {
                    Ok(contains_tag(tags, check))
                }
            },
        }
    }

    /// Validates the given list of tags against the engine's tag policies:
    /// the change that adds and removes nothing, by an actor without roles.
    pub fn check_tags(&self, tags: &[Tag]) -> (result: Result<(), Error>)
        requires
            self.wf(),
        ensures
            outcome(result) == self@.validate(
                tag_names(tags@),
                Seq::empty(),
                Seq::empty(),
                Seq::empty(),
            ),
            !(result matches Err(Error::MissingRoles(_))),
    {
        let no_tags: Vec<Tag> = Vec::new();
        let no_roles: Vec<Role> = Vec::new();
        proof {
            assert(tag_names(no_tags@) =~= Seq::empty());
            assert(role_names(no_roles@) =~= Seq::empty());
            assert(all_stay(tag_names(tags@), Seq::empty(), Seq::empty()));
        }
        self.check_tag_changes(tags, no_tags.as_slice(), no_tags.as_slice(), no_roles.as_slice())
    }

    /// Validates the given list of tag changes against the engine's tag
    /// policies.
    ///
    /// The change adds `added_tags` to `tags` and removes `removed_tags`;
    /// the actor holds `roles`. Every role held must be registered, and no
    /// tag may be both added and removed. Then each of `tags`, in order,
    /// must be a proper tag whose rules the change observes. The first
    /// failure is reported.
    #[verifier::loop_isolation(false)]
    pub fn check_tag_changes(
        &self,
        tags: &[Tag],
        added_tags: &[Tag],
        removed_tags: &[Tag],
        roles: &[Role],
    ) -> (result: Result<(), Error>)
        requires
            self.wf(),
        ensures
            outcome(result) == self@.validate(
                tag_names(tags@),
                tag_names(added_tags@),
                tag_names(removed_tags@),
                role_names(roles@),
            ),
            all_stay(tag_names(tags@), tag_names(added_tags@), tag_names(removed_tags@)) ==> !(
            result matches Err(Error::MissingRoles(_))),
    {
        let ghost current = tag_names(tags@);
        let ghost added = tag_names(added_tags@);
        let ghost removed = tag_names(removed_tags@);
        let ghost held = role_names(roles@);
        let ghost verdicts = self@.verdicts(current, added, removed, held);
        proof {
            self.lemma_records_are_bound();
            if all_stay(current, added, removed) {
                lemma_tags_that_stay_need_no_role(self@, current, added, removed, held);
            }
        }

        // Check for unregistered roles
        let mut i: usize = 0;
        while i < roles.len()
            invariant
                0 <= i <= roles.len(),
                forall|k: int| 0 <= k < i ==> self@.roles.contains(#[trigger] held[k]),
            decreases roles.len() - i,
        {
            let role = &roles[i];
            assert(held[i as int] == role@);
            if !self.has_role(role.as_str()) {
                proof {
                    assert forall|k: int| 0 <= k < i implies !(self@.unknown_role())(
                        #[trigger] held[k],
                    ) by {}
                    lemma_first_match_at(held, self@.unknown_role(), i as int);
                }
                return Err(Error::MissingRole(role.clone()));
            }
            i += 1;
        }
        proof {
            assert forall|k: int| 0 <= k < held.len() implies !(self@.unknown_role())(
                #[trigger] held[k],
            ) by {}
            lemma_first_match_none(held, self@.unknown_role());
        }
        // Check for tags that are both added and removed
        if overlaps(added_tags, removed_tags) {
            return Err(Error::Other(BOTH_ADDED_AND_REMOVED));
        }
        let mut j: usize = 0;
        while j < tags.len()
            invariant
                0 <= j <= tags.len(),
                forall|k: int| 0 <= k < j ==> (#[trigger] verdicts[k]) is Ok,
            decreases tags.len() - j,
        {
            let tag = &tags[j];
            assert(current[j as int] == tag@);
            assert(verdicts[j as int] == self@.verdict_on(tag@, current, added, removed, held));
            let spec = match self.get_spec(tag) {
                Err(error) => {
                    proof {
                        lemma_first_match_at(verdicts, failed(), j as int);
                    }
                    return Err(error);
                },
                Ok(spec) => spec,
            };
            match spec.check_tag_changes(self, tags, added_tags, removed_tags, roles) {
                Err(error) => {
                    proof {
                        lemma_first_match_at(verdicts, failed(), j as int);
                    }
                    return Err(error);
                },
                Ok(()) => {},
            }
            j += 1;
        }
        proof {
            lemma_first_match_none(verdicts, failed());
        }
        Ok(())
    }
}

} // verus!
