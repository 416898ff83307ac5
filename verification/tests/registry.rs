use tag_guard::{Engine, Error, Role, Tag, TemplateTagSpec};

#[test]
fn add_remove_tags() {
    let mut engine = Engine::default();

    assert_eq!(engine.has_tag("test"), false);
    let tag = engine.add_tag("test", TemplateTagSpec::default());
    assert_eq!(engine.has_tag("test"), true);
    assert_eq!(engine.get_tag("test").unwrap(), tag);

    engine.delete_tag(&tag);
    assert_eq!(engine.has_tag("test"), false);
}

#[test]
fn add_remove_specs() {
    let mut engine = Engine::default();

    let mut apple = TemplateTagSpec::default();
    apple.required_tags.push(Tag::new("banana"));

    let mut banana = TemplateTagSpec::default();
    banana.needed_roles.push(Role::new("admin"));

    {
        assert_eq!(engine.has_tag("apple"), false);
        let tag = engine.add_tag("apple", apple);
        assert_eq!(engine.has_tag("apple"), true);

        let spec = engine.get_spec(&tag).unwrap();
        assert_eq!(spec.required_tags.len(), 1);
    }

    {
        assert_eq!(engine.has_tag("banana"), false);
        let tag = engine.add_tag("banana", banana);
        assert_eq!(engine.has_tag("apple"), true);
        assert_eq!(engine.has_tag("banana"), true);

        let spec = engine.get_spec(&tag).unwrap();
        assert_eq!(spec.needed_roles.len(), 1);
    }
}

#[test]
fn add_remove_groups() {
    let mut engine = Engine::default();

    assert_eq!(engine.has_tag("fruit"), false);
    let tag = engine.add_group("fruit");
    assert_eq!(engine.has_tag("fruit"), true);
    assert_eq!(engine.get_tag("fruit").unwrap(), tag);
    assert_eq!(engine.get_spec(&tag).is_err(), true);

    engine.delete_group(&tag);
    assert_eq!(engine.has_tag("fruit"), false);
}

#[test]
fn add_remove_roles() {
    let mut engine = Engine::default();

    assert_eq!(engine.has_role("admin"), false);
    let role = engine.add_role("admin");
    assert_eq!(engine.has_role("admin"), true);
    assert_eq!(engine.has_tag("admin"), false);

    engine.delete_role(&role);
    assert_eq!(engine.has_role("fruit"), false);
}

#[test]
fn delete_role_unregisters_it() {
    let mut engine = Engine::default();
    let role = engine.add_role("admin");
    engine.add_role("member");
    engine.delete_role(&role);
    assert_eq!(engine.has_role("admin"), false);
    assert_eq!(engine.has_role("member"), true);
    assert_eq!(engine.get_roles().len(), 1);
}

#[test]
fn names_are_kept_once() {
    let mut engine = Engine::default();
    engine.add_tag("apple", TemplateTagSpec::default());
    engine.add_tag("apple", TemplateTagSpec::default());
    engine.add_group("apple");
    engine.add_group("fruit");
    engine.add_group("fruit");
    engine.add_role("admin");
    engine.add_role("admin");
    assert_eq!(engine.get_tags().len(), 2);
    assert_eq!(engine.get_specs().len(), 1);
    assert_eq!(engine.get_roles().len(), 1);
}

#[test]
fn adding_a_tag_again_replaces_its_rules() {
    let mut engine = Engine::default();
    let mut first = TemplateTagSpec::default();
    first.required_tags.push(Tag::new("banana"));
    let tag = engine.add_tag("apple", first);
    assert_eq!(engine.get_spec(&tag).unwrap().required_tags, vec![Tag::new("banana")]);

    let mut second = TemplateTagSpec::default();
    second.conflicting_tags.push(Tag::new("cherry"));
    engine.add_tag("apple", second);
    let spec = engine.get_spec(&tag).unwrap();
    assert_eq!(spec.required_tags, Vec::<Tag>::new());
    assert_eq!(spec.conflicting_tags, vec![Tag::new("cherry")]);
    assert_eq!(spec.tag(), tag);
    assert_eq!(engine.has_tag("apple"), true);
}

#[test]
fn a_group_named_like_a_proper_tag_stays_a_proper_tag() {
    let mut engine = Engine::default();
    let tag = engine.add_tag("apple", TemplateTagSpec::default());
    let group = engine.add_group("apple");
    assert_eq!(group, tag);
    assert_eq!(engine.is_group(&tag), false);
    assert_eq!(engine.get_spec(&tag).is_ok(), true);
}

#[test]
fn is_group_tells_groups_from_proper_tags() {
    let mut engine = Engine::default();
    let tag = engine.add_tag("apple", TemplateTagSpec::default());
    let group = engine.add_group("fruit");
    assert_eq!(engine.is_group(&tag), false);
    assert_eq!(engine.is_group(&group), true);
    assert_eq!(engine.is_group(&Tag::new("stone")), false);
}

#[test]
fn lookups_by_name_fail_with_the_name() {
    let mut engine = Engine::default();
    engine.add_tag("apple", TemplateTagSpec::default());
    engine.add_role("admin");
    assert_eq!(engine.get_tag("apple"), Ok(Tag::new("apple")));
    assert_eq!(engine.get_tag("Apple"), Err(Error::NoSuchTag(String::from("Apple"))));
    assert_eq!(engine.get_role("admin"), Ok(Role::new("admin")));
    assert_eq!(engine.get_role("apple"), Err(Error::NoSuchRole(String::from("apple"))));
    assert_eq!(
        engine.get_spec(&Tag::new("pear")).err(),
        Some(Error::MissingTag(Tag::new("pear")))
    );
    assert_eq!(
        engine.get_spec_mut(&Tag::new("pear")).err(),
        Some(Error::MissingTag(Tag::new("pear")))
    );
}

#[test]
fn delete_tag_prunes_requirements_and_conflicts() {
    let mut engine = Engine::default();
    let mut apple = TemplateTagSpec::default();
    apple.required_tags = vec![Tag::new("banana"), Tag::new("cherry"), Tag::new("banana")];
    apple.conflicting_tags = vec![Tag::new("banana"), Tag::new("date")];
    apple.groups = vec![Tag::new("banana")];
    let apple = engine.add_tag("apple", apple);
    let banana = engine.add_tag("banana", TemplateTagSpec::default());

    engine.delete_tag(&banana);

    assert_eq!(engine.has_tag("banana"), false);
    assert_eq!(engine.get_spec(&banana).is_err(), true);
    let spec = engine.get_spec(&apple).unwrap();
    assert_eq!(spec.required_tags, vec![Tag::new("cherry")]);
    assert_eq!(spec.conflicting_tags, vec![Tag::new("date")]);
    assert_eq!(spec.groups, vec![Tag::new("banana")]);
}

#[test]
fn delete_tag_of_an_unregistered_name_still_prunes() {
    let mut engine = Engine::default();
    let mut apple = TemplateTagSpec::default();
    apple.required_tags = vec![Tag::new("ghost")];
    let apple = engine.add_tag("apple", apple);
    engine.delete_tag(&Tag::new("ghost"));
    assert_eq!(engine.get_spec(&apple).unwrap().required_tags, Vec::<Tag>::new());
    assert_eq!(engine.has_tag("apple"), true);
}

#[test]
fn delete_group_prunes_memberships() {
    let mut engine = Engine::default();
    let mut apple = TemplateTagSpec::default();
    apple.groups = vec![Tag::new("fruit"), Tag::new("food")];
    apple.required_tags = vec![Tag::new("fruit")];
    let apple = engine.add_tag("apple", apple);
    let fruit = engine.add_group("fruit");

    engine.delete_group(&fruit);

    assert_eq!(engine.has_tag("fruit"), false);
    let spec = engine.get_spec(&apple).unwrap();
    assert_eq!(spec.groups, vec![Tag::new("food")]);
    assert_eq!(spec.required_tags, vec![Tag::new("fruit")]);
}

#[test]
fn delete_role_prunes_needed_roles() {
    let mut engine = Engine::default();
    let mut apple = TemplateTagSpec::default();
    apple.needed_roles = vec![Role::new("admin"), Role::new("member")];
    let apple = engine.add_tag("apple", apple);
    let admin = engine.add_role("admin");

    engine.delete_role(&admin);

    assert_eq!(engine.has_role("admin"), false);
    assert_eq!(engine.get_spec(&apple).unwrap().needed_roles, vec![Role::new("member")]);
}

#[test]
fn rules_are_edited_through_get_spec_mut() {
    let mut engine = Engine::default();
    let apple = engine.add_tag("apple", TemplateTagSpec::default());
    engine.add_tag("banana", TemplateTagSpec::default());
    {
        let spec = engine.get_spec_mut(&apple).unwrap();
        spec.required_tags.push(Tag::new("banana"));
    }
    assert_eq!(engine.get_spec(&apple).unwrap().required_tags, vec![Tag::new("banana")]);
    assert_eq!(
        engine.check_tags(&[Tag::new("apple")]),
        Err(Error::RequiresTags(Tag::new("apple"), vec![Tag::new("banana")]))
    );
    assert_eq!(engine.check_tags(&[Tag::new("apple"), Tag::new("banana")]), Ok(()));
}

#[test]
fn tags_and_roles_are_their_names() {
    let tag = Tag::new("scp");
    let role = Role::new("admin");
    assert_eq!(tag.as_str(), "scp");
    assert_eq!(tag.to_string(), "scp");
    assert_eq!(tag.is_named("scp"), true);
    assert_eq!(tag.is_named("SCP"), false);
    assert_eq!(tag.clone(), tag);
    assert_ne!(tag, Tag::new("tale"));
    assert_eq!(role.as_str(), "admin");
    assert_eq!(role.to_string(), "admin");
    assert_eq!(role.is_named("admin"), true);
    assert_eq!(role.clone(), role);
    assert_ne!(role, Role::new("member"));
}

#[test]
fn tags_and_roles_show_their_kind_when_debugged() {
    assert_eq!(format!("{:?}", Tag::new("scp")), "Tag(\"scp\")");
    assert_eq!(format!("{:?}", Role::new("admin")), "Role(\"admin\")");
    assert_eq!(
        format!("{:?}", Error::MissingTag(Tag::new("a\"b"))),
        "MissingTag(Tag(\"a\\\"b\"))"
    );
}

#[test]
fn tags_and_roles_lend_their_names() {
    let tag = Tag::new("scp");
    let name: &str = tag.as_ref();
    assert_eq!(name, "scp");
    assert_eq!(tag.len(), 3);
    assert_eq!(tag.starts_with("sc"), true);
    let role = Role::new("admin");
    let name: &str = role.as_ref();
    assert_eq!(name, "admin");
    assert_eq!(&*role, "admin");

    let mut held = std::collections::HashSet::new();
    held.insert(Tag::new("scp"));
    held.insert(Tag::new("scp"));
    assert_eq!(held.len(), 1);
    assert_eq!(held.contains("scp"), true);
    assert_eq!(held.contains("tale"), false);
}

#[test]
fn the_prelude_holds_the_common_names() {
    fn registered(engine: &tag_guard::prelude::Engine, name: &str) -> tag_guard::Result<()> {
        engine.get_tag(name).map(|_| ())
    }
    let mut engine = tag_guard::prelude::Engine::default();
    engine.add_tag("apple", tag_guard::prelude::TemplateTagSpec::default());
    assert_eq!(registered(&engine, "apple"), Ok(()));
    assert_eq!(
        registered(&engine, "pear"),
        Err(tag_guard::prelude::Error::NoSuchTag(String::from("pear")))
    );
}

#[test]
fn a_proper_tag_is_not_deleted_as_a_group() {
    let mut engine = Engine::default();
    let mut rules = TemplateTagSpec::default();
    rules.groups = vec![Tag::new("apple"), Tag::new("fruit")];
    let apple = engine.add_tag("apple", rules);
    engine.add_group("fruit");

    engine.delete_group(&apple);

    // the name has rules: it is no group, and stays registered with them;
    // as a group that tags name, it is struck out all the same
    assert_eq!(engine.has_tag("apple"), true);
    assert_eq!(engine.is_group(&apple), false);
    assert_eq!(engine.get_tags().len(), 2);
    assert_eq!(engine.get_spec(&apple).unwrap().groups, vec![Tag::new("fruit")]);
    assert_eq!(engine.check_tags(&[Tag::new("apple")]), Ok(()));

    // a group goes, and only the group
    engine.delete_group(&Tag::new("fruit"));
    assert_eq!(engine.has_tag("fruit"), false);
    assert_eq!(engine.has_tag("apple"), true);
    assert_eq!(engine.get_spec(&apple).unwrap().groups, Vec::<Tag>::new());
}

#[test]
fn every_tag_with_rules_stays_registered() {
    let mut engine = Engine::default();
    let apple = engine.add_tag("apple", TemplateTagSpec::default());
    let pear = engine.add_tag("pear", TemplateTagSpec::default());
    engine.add_group("fruit");
    engine.add_group("apple");
    engine.delete_group(&apple);
    engine.delete_group(&Tag::new("fruit"));
    engine.delete_role(&Role::new("apple"));
    engine.delete_tag(&pear);
    for (tag, spec) in engine.get_specs() {
        assert_eq!(engine.has_tag(tag.as_str()), true);
        assert_eq!(&spec.tag(), tag);
    }
    assert_eq!(engine.get_specs().len(), 1);
    assert_eq!(engine.get_tags().len(), 1);
}

#[test]
fn a_rule_record_is_bound_to_the_tag_it_is_kept_under() {
    let mut engine = Engine::default();
    let apple = engine.add_tag("apple", TemplateTagSpec::default());
    engine.add_tag("pear", TemplateTagSpec::default());
    assert_eq!(engine.get_spec(&apple).unwrap().tag(), apple);
    assert_eq!(engine.get_spec_mut(&apple).unwrap().tag(), apple);
    engine.get_spec_mut(&apple).unwrap().groups.push(Tag::new("fruit"));
    engine.add_tag("apple", TemplateTagSpec::default());
    assert_eq!(engine.get_spec(&apple).unwrap().tag(), apple);
    assert_eq!(engine.get_spec(&Tag::new("pear")).unwrap().tag(), Tag::new("pear"));
}

#[test]
fn tags_and_roles_lend_their_names_as_strings() {
    let tag = Tag::new("scp");
    let name: &String = tag.as_ref();
    assert_eq!(name, "scp");
    let name: &String = std::borrow::Borrow::borrow(&tag);
    assert_eq!(name, "scp");
    let name: &str = std::borrow::Borrow::borrow(&tag);
    assert_eq!(name, "scp");

    let role = Role::new("admin");
    let name: &String = role.as_ref();
    assert_eq!(name, "admin");
    let name: &String = std::borrow::Borrow::borrow(&role);
    assert_eq!(name, "admin");

    let mut held = std::collections::HashSet::new();
    held.insert(Role::new("admin"));
    assert_eq!(held.contains(&String::from("admin")), true);
    assert_eq!(held.contains(&String::from("member")), false);
    assert_eq!(held.contains("admin"), true);
}

#[test]
fn the_lists_of_a_rule_record_are_replaced_one_by_one() {
    let mut engine = Engine::default();
    let apple = engine.add_tag("apple", TemplateTagSpec::default());
    {
        let spec = engine.get_spec_mut(&apple).unwrap();
        spec.set_required_tags(vec![Tag::new("pear")]);
        spec.set_conflicting_tags(vec![Tag::new("plum"), Tag::new("fig")]);
        spec.set_needed_roles(vec![Role::new("admin")]);
        spec.set_groups(vec![Tag::new("fruit")]);
    }
    let spec = engine.get_spec(&apple).unwrap();
    assert_eq!(spec.tag(), apple);
    assert_eq!(spec.required_tags, vec![Tag::new("pear")]);
    assert_eq!(spec.conflicting_tags, vec![Tag::new("plum"), Tag::new("fig")]);
    assert_eq!(spec.needed_roles, vec![Role::new("admin")]);
    assert_eq!(spec.groups, vec![Tag::new("fruit")]);

    engine.get_spec_mut(&apple).unwrap().set_required_tags(vec![]);
    let spec = engine.get_spec(&apple).unwrap();
    assert_eq!(spec.required_tags, Vec::<Tag>::new());
    assert_eq!(spec.groups, vec![Tag::new("fruit")]);
}
