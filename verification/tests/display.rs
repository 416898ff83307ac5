use tag_guard::error::{write_items, Named};
use tag_guard::{Error, Role, Tag};

#[test]
fn items_are_separated_by_commas() {
    let mut out = String::from("x: ");
    write_items(&mut out, &[Tag::new("a"), Tag::new("b"), Tag::new("c")]);
    assert_eq!(out, "x: a, b, c");
}

#[test]
fn one_item_stands_alone() {
    let mut out = String::new();
    write_items(&mut out, &[Role::new("admin")]);
    assert_eq!(out, "admin");
}

#[test]
fn no_item_writes_nothing() {
    let mut out = String::from("kept");
    write_items::<Tag>(&mut out, &[]);
    assert_eq!(out, "kept");
}

#[test]
fn names_are_what_is_written() {
    assert_eq!(Tag::new("scp").as_name(), "scp");
    assert_eq!(Role::new("admin").as_name(), "admin");
}

#[test]
fn descriptions_name_the_kind_of_error() {
    let tag = || Tag::new("scp");
    let role = || Role::new("admin");
    assert_eq!(Error::RequiresTags(tag(), vec![]).description(), "Tag missing requirements");
    assert_eq!(Error::IncompatibleTags(tag(), tag()).description(), "Tags conflict");
    assert_eq!(Error::MissingTag(tag()).description(), "Tag not found in Engine");
    assert_eq!(Error::NoSuchTag(String::from("x")).description(), "No tag with that name");
    assert_eq!(Error::MissingRole(role()).description(), "Role not found in Engine");
    assert_eq!(Error::MissingRoles(vec![]).description(), "Cannot apply tags without roles");
    assert_eq!(Error::NoSuchRole(String::from("x")).description(), "No role with that name");
    assert_eq!(Error::Other("something else").description(), "something else");
}

#[test]
fn errors_read_as_description_and_detail() {
    assert_eq!(
        Error::RequiresTags(Tag::new("keter"), vec![Tag::new("scp"), Tag::new("primary")])
            .to_string(),
        "Tag missing requirements: keter needs scp, primary"
    );
    assert_eq!(
        Error::RequiresTags(Tag::new("keter"), vec![Tag::new("scp")]).to_string(),
        "Tag missing requirements: keter needs scp"
    );
    assert_eq!(
        Error::IncompatibleTags(Tag::new("scp"), Tag::new("primary")).to_string(),
        "Tags conflict: scp and primary"
    );
    assert_eq!(
        Error::MissingTag(Tag::new("sliver")).to_string(),
        "Tag not found in Engine: sliver"
    );
    assert_eq!(
        Error::NoSuchTag(String::from("sliver")).to_string(),
        "No tag with that name: sliver"
    );
    assert_eq!(
        Error::MissingRole(Role::new("guest")).to_string(),
        "Role not found in Engine: guest"
    );
    assert_eq!(
        Error::MissingRoles(vec![Role::new("admin"), Role::new("moderator")]).to_string(),
        "Cannot apply tags without roles: at least one of admin, moderator"
    );
    assert_eq!(
        Error::MissingRoles(vec![]).to_string(),
        "Cannot apply tags without roles: at least one of "
    );
    assert_eq!(
        Error::NoSuchRole(String::from("guest")).to_string(),
        "No role with that name: guest"
    );
    assert_eq!(
        Error::Other("Tag present in both added_tags and removed_tags").to_string(),
        "Tag present in both added_tags and removed_tags: "
    );
}

#[test]
fn errors_are_equal_by_kind_and_names() {
    assert_eq!(Error::MissingTag(Tag::new("a")), Error::MissingTag(Tag::new("a")));
    assert_ne!(Error::MissingTag(Tag::new("a")), Error::MissingTag(Tag::new("b")));
    assert_ne!(Error::MissingTag(Tag::new("a")), Error::NoSuchTag(String::from("a")));
    assert_ne!(
        Error::RequiresTags(Tag::new("a"), vec![Tag::new("b"), Tag::new("c")]),
        Error::RequiresTags(Tag::new("a"), vec![Tag::new("c"), Tag::new("b")])
    );
}
