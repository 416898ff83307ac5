use tag_guard::load::{Configuration, TagConfig};
use tag_guard::{Engine, Error, Role, Tag, TemplateTagSpec};

fn names(list: &[&str]) -> Option<Vec<String>> {
    Some(list.iter().map(|name| String::from(*name)).collect())
}

fn tags(list: &[&str]) -> Vec<Tag> {
    list.iter().map(|name| Tag::new(name)).collect()
}

fn roles(list: &[&str]) -> Vec<Role> {
    list.iter().map(|name| Role::new(name)).collect()
}

fn bare(name: &str) -> TagConfig {
    TagConfig {
        name: String::from(name),
        groups: None,
        roles: None,
        requires: None,
        conflicts_with: None,
    }
}

fn sample() -> Configuration {
    Configuration {
        roles: vec![String::from("admin"), String::from("licensing")],
        tags: vec![
            TagConfig { groups: names(&["primary"]), ..bare("tale") },
            TagConfig {
                groups: names(&["primary"]),
                conflicts_with: names(&["primary"]),
                ..bare("scp")
            },
            TagConfig {
                groups: names(&["object-class"]),
                requires: names(&["scp"]),
                ..bare("keter")
            },
            TagConfig {
                roles: names(&["licensing"]),
                conflicts_with: names(&["_image"]),
                ..bare("_cc")
            },
            TagConfig { conflicts_with: names(&["_cc"]), ..bare("_image") },
        ],
    }
}

#[test]
fn a_configuration_fills_an_empty_engine() {
    let mut engine = Engine::default();
    assert_eq!(sample().apply(&mut engine), Ok(()));

    assert_eq!(engine.get_roles().len(), 2);
    assert_eq!(engine.has_role("admin"), true);
    assert_eq!(engine.has_role("licensing"), true);

    // five proper tags, and the two groups that they name
    assert_eq!(engine.get_specs().len(), 5);
    assert_eq!(engine.get_tags().len(), 7);
    assert_eq!(engine.is_group(&Tag::new("primary")), true);
    assert_eq!(engine.is_group(&Tag::new("object-class")), true);
    assert_eq!(engine.is_group(&Tag::new("scp")), false);

    let scp = engine.get_spec(&Tag::new("scp")).unwrap();
    assert_eq!(scp.tag(), Tag::new("scp"));
    assert_eq!(scp.groups, tags(&["primary"]));
    assert_eq!(scp.conflicting_tags, tags(&["primary"]));
    assert_eq!(scp.required_tags, tags(&[]));
    assert_eq!(scp.needed_roles, roles(&[]));

    let keter = engine.get_spec(&Tag::new("keter")).unwrap();
    assert_eq!(keter.required_tags, tags(&["scp"]));
    assert_eq!(keter.groups, tags(&["object-class"]));

    // `_cc` names `_image` before the rules of `_image` are written: both
    // are registered by then
    let cc = engine.get_spec(&Tag::new("_cc")).unwrap();
    assert_eq!(cc.conflicting_tags, tags(&["_image"]));
    assert_eq!(cc.needed_roles, roles(&["licensing"]));

    assert_eq!(engine.check_tags(&tags(&["scp", "keter"])), Ok(()));
    assert_eq!(
        engine.check_tags(&tags(&["keter"])),
        Err(Error::RequiresTags(Tag::new("keter"), tags(&["scp"])))
    );
}

#[test]
fn applying_twice_changes_nothing_more() {
    let mut engine = Engine::default();
    assert_eq!(sample().apply(&mut engine), Ok(()));
    assert_eq!(sample().apply(&mut engine), Ok(()));
    assert_eq!(engine.get_roles().len(), 2);
    assert_eq!(engine.get_specs().len(), 5);
    assert_eq!(engine.get_tags().len(), 7);
    assert_eq!(engine.get_spec(&Tag::new("keter")).unwrap().required_tags, tags(&["scp"]));
}

#[test]
fn roles_that_are_not_configured_are_deleted() {
    let mut engine = Engine::default();
    engine.add_role("guest");
    engine.add_role("admin");
    let mut apple = TemplateTagSpec::default();
    apple.needed_roles = roles(&["guest", "admin", "ghost"]);
    engine.add_tag("apple", apple);

    let config = Configuration { roles: vec![String::from("admin")], tags: vec![] };
    assert_eq!(config.apply(&mut engine), Ok(()));

    assert_eq!(engine.has_role("guest"), false);
    assert_eq!(engine.has_role("admin"), true);
    assert_eq!(engine.get_roles().len(), 1);
    // `apple` is not configured either: it went with its rules
    assert_eq!(engine.has_tag("apple"), false);
}

#[test]
fn deleted_roles_are_struck_out_of_the_tags_that_stay() {
    let mut engine = Engine::default();
    engine.add_role("guest");
    engine.add_role("admin");
    let mut apple = TemplateTagSpec::default();
    apple.needed_roles = roles(&["guest", "admin", "ghost"]);
    apple.required_tags = tags(&["pear", "fruit"]);
    engine.add_tag("apple", apple);
    engine.add_tag("pear", TemplateTagSpec::default());
    engine.add_group("fruit");

    // no list is given for `apple`: each of its lists is emptied
    let config = Configuration { roles: vec![String::from("admin")], tags: vec![bare("apple")] };
    assert_eq!(config.apply(&mut engine), Ok(()));

    assert_eq!(engine.has_tag("pear"), false);
    // groups are never deleted
    assert_eq!(engine.is_group(&Tag::new("fruit")), true);
    let spec = engine.get_spec(&Tag::new("apple")).unwrap();
    assert_eq!(spec.required_tags, tags(&[]));
    assert_eq!(spec.conflicting_tags, tags(&[]));
    assert_eq!(spec.groups, tags(&[]));
    assert_eq!(spec.needed_roles, roles(&[]));
}

#[test]
fn deleted_tags_are_struck_out_of_the_tags_that_are_met_later() {
    let mut engine = Engine::default();
    let mut apple = TemplateTagSpec::default();
    apple.required_tags = tags(&["pear"]);
    apple.conflicting_tags = tags(&["pear", "plum"]);
    engine.add_tag("apple", apple);
    engine.add_tag("pear", TemplateTagSpec::default());
    engine.add_tag("plum", TemplateTagSpec::default());

    // `apple` comes second and asks for a role that is not there: the
    // work ends before its role list is written, and its requirements and
    // conflicts are the configured ones by then
    let config = Configuration {
        roles: vec![],
        tags: vec![
            bare("plum"),
            TagConfig {
                requires: names(&["plum"]),
                roles: names(&["ghost"]),
                ..bare("apple")
            },
        ],
    };
    assert_eq!(config.apply(&mut engine), Err(Error::NoSuchRole(String::from("ghost"))));
    assert_eq!(engine.has_tag("pear"), false);
    let spec = engine.get_spec(&Tag::new("apple")).unwrap();
    assert_eq!(spec.required_tags, tags(&["plum"]));
    assert_eq!(spec.conflicting_tags, tags(&[]));
}

#[test]
fn a_required_name_must_be_registered() {
    let mut engine = Engine::default();
    let config = Configuration {
        roles: vec![],
        tags: vec![
            bare("apple"),
            TagConfig { requires: names(&["apple", "ghost", "spirit"]), ..bare("pear") },
        ],
    };
    assert_eq!(config.apply(&mut engine), Err(Error::NoSuchTag(String::from("ghost"))));
    // the tags themselves were registered before the rules were written
    assert_eq!(engine.has_tag("apple"), true);
    assert_eq!(engine.has_tag("pear"), true);
    assert_eq!(engine.get_spec(&Tag::new("pear")).unwrap().required_tags, tags(&[]));
}

#[test]
fn a_conflicting_name_must_be_registered() {
    let mut engine = Engine::default();
    let config = Configuration {
        roles: vec![],
        tags: vec![
            bare("apple"),
            TagConfig {
                requires: names(&["apple"]),
                conflicts_with: names(&["ghost"]),
                groups: names(&["fruit"]),
                ..bare("pear")
            },
        ],
    };
    assert_eq!(config.apply(&mut engine), Err(Error::NoSuchTag(String::from("ghost"))));
    // the requirements were written, and the groups were not reached
    assert_eq!(engine.get_spec(&Tag::new("pear")).unwrap().required_tags, tags(&["apple"]));
    assert_eq!(engine.has_tag("fruit"), false);
}

#[test]
fn a_needed_role_must_be_registered() {
    let mut engine = Engine::default();
    let config = Configuration {
        roles: vec![String::from("admin")],
        tags: vec![TagConfig {
            roles: names(&["admin", "guest"]),
            groups: names(&["fruit"]),
            ..bare("apple")
        }],
    };
    assert_eq!(config.apply(&mut engine), Err(Error::NoSuchRole(String::from("guest"))));
    // the groups were registered and written before the roles were looked up
    assert_eq!(engine.is_group(&Tag::new("fruit")), true);
    assert_eq!(engine.get_spec(&Tag::new("apple")).unwrap().groups, tags(&["fruit"]));
}

#[test]
fn a_configured_name_that_is_a_group_has_no_rules_to_write() {
    let mut engine = Engine::default();
    engine.add_group("fruit");
    let config = Configuration { roles: vec![], tags: vec![bare("fruit")] };
    assert_eq!(config.apply(&mut engine), Err(Error::MissingTag(Tag::new("fruit"))));
    assert_eq!(engine.is_group(&Tag::new("fruit")), true);
}

#[test]
fn a_group_may_be_a_proper_tag() {
    let mut engine = Engine::default();
    let config = Configuration {
        roles: vec![],
        tags: vec![bare("apple"), TagConfig { groups: names(&["apple", "fruit"]), ..bare("pear") }],
    };
    assert_eq!(config.apply(&mut engine), Ok(()));
    assert_eq!(engine.is_group(&Tag::new("apple")), false);
    assert_eq!(engine.is_group(&Tag::new("fruit")), true);
    assert_eq!(engine.get_spec(&Tag::new("pear")).unwrap().groups, tags(&["apple", "fruit"]));
}

#[test]
fn a_group_registered_on_the_way_can_be_required_by_a_later_tag() {
    let mut engine = Engine::default();
    let late = Configuration {
        roles: vec![],
        tags: vec![
            TagConfig { groups: names(&["fruit"]), ..bare("apple") },
            TagConfig { requires: names(&["fruit"]), ..bare("pie") },
        ],
    };
    assert_eq!(late.apply(&mut engine), Ok(()));

    let mut engine = Engine::default();
    let early = Configuration {
        roles: vec![],
        tags: vec![
            TagConfig { requires: names(&["fruit"]), ..bare("pie") },
            TagConfig { groups: names(&["fruit"]), ..bare("apple") },
        ],
    };
    assert_eq!(early.apply(&mut engine), Err(Error::NoSuchTag(String::from("fruit"))));
}

#[test]
fn the_groups_of_a_tag_are_registered_after_its_conflicts_are_looked_up() {
    let config = || Configuration {
        roles: vec![],
        tags: vec![TagConfig {
            groups: names(&["primary"]),
            conflicts_with: names(&["primary"]),
            ..bare("scp")
        }],
    };
    let mut engine = Engine::default();
    assert_eq!(config().apply(&mut engine), Err(Error::NoSuchTag(String::from("primary"))));
    assert_eq!(engine.has_tag("primary"), false);

    engine.add_group("primary");
    assert_eq!(config().apply(&mut engine), Ok(()));
    assert_eq!(engine.check_tags(&tags(&["scp"])), Ok(()));
}

#[test]
fn the_last_configuration_of_a_tag_is_the_one_that_stays() {
    let mut engine = Engine::default();
    let config = Configuration {
        roles: vec![],
        tags: vec![
            TagConfig { groups: names(&["fruit"]), ..bare("apple") },
            TagConfig { groups: names(&["food"]), ..bare("apple") },
        ],
    };
    assert_eq!(config.apply(&mut engine), Ok(()));
    assert_eq!(engine.get_specs().len(), 1);
    assert_eq!(engine.get_spec(&Tag::new("apple")).unwrap().groups, tags(&["food"]));
    assert_eq!(engine.is_group(&Tag::new("fruit")), true);
    assert_eq!(engine.is_group(&Tag::new("food")), true);
}

#[test]
fn empty_names_are_told_apart() {
    assert_eq!(sample().is_well_named(), true);
    assert_eq!(Configuration { roles: vec![], tags: vec![] }.is_well_named(), true);
    assert_eq!(Configuration { roles: vec![String::new()], tags: vec![] }.is_well_named(), false);
    assert_eq!(Configuration { roles: vec![], tags: vec![bare("")] }.is_well_named(), false);
    assert_eq!(
        Configuration {
            roles: vec![],
            tags: vec![TagConfig { groups: names(&["fruit", ""]), ..bare("apple") }],
        }
        .is_well_named(),
        false
    );
    // an empty name that is only looked up is no harm: it is not found
    let config = Configuration {
        roles: vec![],
        tags: vec![TagConfig { requires: names(&[""]), ..bare("apple") }],
    };
    assert_eq!(config.is_well_named(), true);
    assert_eq!(config.apply(&mut Engine::default()), Err(Error::NoSuchTag(String::new())));
}

#[test]
fn configurations_are_compared_field_by_field() {
    assert_eq!(sample(), sample().clone());
    assert_ne!(bare("apple"), TagConfig { groups: names(&[]), ..bare("apple") });
}

#[test]
fn a_copy_leaves_out_the_lists_that_were_left_out() {
    let config = TagConfig {
        groups: names(&[]),
        requires: names(&["pear", "plum"]),
        ..bare("apple")
    };
    let copy = config.clone();
    assert_eq!(copy.name, "apple");
    assert_eq!(copy.groups, Some(vec![]));
    assert_eq!(copy.roles, None);
    assert_eq!(copy.requires, names(&["pear", "plum"]));
    assert_eq!(copy.conflicts_with, None);

    let whole =
        Configuration { roles: vec![String::from("admin")], tags: vec![config, bare("pear")] };
    let copy = whole.clone();
    assert_eq!(copy, whole);
    assert_eq!(copy.tags[0].groups, Some(vec![]));
    assert_eq!(copy.tags[1].groups, None);
}
