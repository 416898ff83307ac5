use crate::model::Failure;
use crate::tag::{role_names, tag_names, Role, Tag};
use vstd::prelude::*;
use vstd::string::StringExecFns;

verus! {

/// The ways in which a query or a reconciliation fails.
#[must_use]
#[derive(Debug, PartialEq, Eq)]
pub enum Error {
    /// The tag cannot be applied unless the others are also present.
    RequiresTags(Tag, Vec<Tag>),
    /// The two tags cannot be applied together, as they conflict.
    IncompatibleTags(Tag, Tag),
    /// The given tag is not registered as a proper tag.
    MissingTag(Tag),
    /// The given tag name could not be found.
    NoSuchTag(String),
    /// The given role is not registered.
    MissingRole(Role),
    /// The actor holds none of the roles needed to change a tag.
    MissingRoles(Vec<Role>),
    /// The given role name could not be found.
    NoSuchRole(String),
    /// For uncommon cases, which do not occur with a properly used engine.
    Other(&'static str),
}

impl View for Error {
    type V = Failure;

    open spec fn view(&self) -> Failure {
        match *self {
            Error::RequiresTags(tag, needed) => Failure::RequiresTags(tag@, tag_names(needed@)),
            Error::IncompatibleTags(first, second) => Failure::IncompatibleTags(first@, second@),
            Error::MissingTag(tag) => Failure::MissingTag(tag@),
            Error::NoSuchTag(name) => Failure::NoSuchTag(name@),
            Error::MissingRole(role) => Failure::MissingRole(role@),
            Error::MissingRoles(roles) => Failure::MissingRoles(role_names(roles@)),
            Error::NoSuchRole(name) => Failure::NoSuchRole(name@),
            Error::Other(message) => Failure::Other(message@),
        }
    }
}

/// A result of this crate stands for success with the same value, or for the
/// failure that its error stands for.
pub open spec fn outcome<T>(result: Result<T, Error>) -> Result<T, Failure> {
    match result {
        Ok(value) => Ok(value),
        Err(error) => Err(error@),
    }
}

/// A count that succeeded or failed, as the model has it.
pub open spec fn tally(result: Result<usize, Error>) -> Result<nat, Failure> {
    match result {
        Ok(count) => Ok(count as nat),
        Err(error) => Err(error@),
    }
}

/// The items, in order, with `", "` between each two.
pub open spec fn joined(items: Seq<Seq<char>>) -> Seq<char>
    decreases items.len(),
{
    if items.len() == 0 {
        Seq::empty()
    } else if items.len() == 1 {
        items[0]
    } else {
        joined(items.drop_last()) + ", "@ + items.last()
    }
}

impl Failure {
    /// A short description of the kind of failure.
    pub open spec fn description(self) -> Seq<char> {
        match self {
            Failure::RequiresTags(_, _) => "Tag missing requirements"@,
            Failure::IncompatibleTags(_, _) => "Tags conflict"@,
            Failure::MissingTag(_) => "Tag not found in Engine"@,
            Failure::NoSuchTag(_) => "No tag with that name"@,
            Failure::MissingRole(_) => "Role not found in Engine"@,
            Failure::MissingRoles(_) => "Cannot apply tags without roles"@,
            Failure::NoSuchRole(_) => "No role with that name"@,
            Failure::Other(message) => message,
        }
    }

    /// What the failure is about: the names involved.
    pub open spec fn detail(self) -> Seq<char> {
        match self {
            Failure::RequiresTags(tag, needed) => tag + " needs "@ + joined(needed),
            Failure::IncompatibleTags(first, second) => first + " and "@ + second,
            Failure::MissingTag(tag) => tag,
            Failure::NoSuchTag(name) => name,
            Failure::MissingRole(role) => role,
            Failure::MissingRoles(roles) => "at least one of "@ + joined(roles),
            Failure::NoSuchRole(name) => name,
            Failure::Other(_) => Seq::empty(),
        }
    }

    /// The failure as a line of text: the description, a colon and a space,
    /// then the detail.
    pub open spec fn display(self) -> Seq<char> {
        self.description() + ": "@ + self.detail()
    }
}

/// What is written out by its name.
pub trait Named {
    /// The name.
    spec fn name(&self) -> Seq<char>;

    /// The name, as text.
    fn as_name(&self) -> (name: &str)
        ensures
            name@ == self.name(),
    ;
}

impl Named for Tag {
    open spec fn name(&self) -> Seq<char> {
        self@
    }

    fn as_name(&self) -> (name: &str) {
        self.as_str()
    }
}

impl Named for Role {
    open spec fn name(&self) -> Seq<char> {
        self@
    }

    fn as_name(&self) -> (name: &str) {
        self.as_str()
    }
}

/// The names of a sequence of items, in order.
pub open spec fn names_of<D: Named>(items: Seq<D>) -> Seq<Seq<char>> {
    items.map_values(|item: D| item.name())
}

/// Appends the names of the items to `f`, separated by `", "`.
pub fn write_items<D: Named>(f: &mut String, items: &[D])
    ensures
        final(f)@ == old(f)@ + joined(names_of(items@)),
{
    let ghost names = names_of(items@);
    let mut i: usize = 0;
    while i < items.len()
        invariant
            0 <= i <= items.len(),
            names == names_of(items@),
            f@ == old(f)@ + joined(names.take(i as int)),
        decreases items.len() - i,
    {
        if i > 0 {
            f.append(", ");
        }
        f.append(items[i].as_name());
        proof {
            let before = names.take(i as int);
            let after = names.take(i + 1);
            assert(after.drop_last() =~= before);
            assert(after.last() == names[i as int]);
            if i > 0 {
                assert(joined(after) == joined(before) + ", "@ + names[i as int]);
                assert(f@ =~= old(f)@ + joined(after));
            } else {
                assert(joined(before) =~= Seq::<char>::empty());
                assert(joined(after) == names[0]);
                assert(f@ =~= old(f)@ + joined(after));
            }
        }
        i += 1;
    }
    proof {
        assert(names.take(i as int) =~= names);
    }
}

impl Error {
    /// A short description of the kind of error.
    pub fn description(&self) -> (text: &'static str)
        ensures
            text@ == self@.description(),
    {
        match self {
            Error::RequiresTags(_, _) => "Tag missing requirements",
            Error::IncompatibleTags(_, _) => "Tags conflict",
            Error::MissingTag(_) => "Tag not found in Engine",
            Error::NoSuchTag(_) => "No tag with that name",
            Error::MissingRole(_) => "Role not found in Engine",
            Error::MissingRoles(_) => "Cannot apply tags without roles",
            Error::NoSuchRole(_) => "No role with that name",
            Error::Other(message) => message,
        }
    }

    /// The error as a line of text: the description, a colon and a space,
    /// then the names involved, lists separated by commas.
    pub fn to_string(&self) -> (text: String)
        ensures
            text@ == self@.display(),
    {
        let mut out = self.description().to_owned();
        out.append(": ");
        let ghost head = out@;
        match self {
            Error::RequiresTags(tag, needed) => {
                out.append(tag.as_str());
                out.append(" needs ");
                write_items(&mut out, needed.as_slice());
                assert(names_of(needed@) =~= tag_names(needed@));
                assert(out@ =~= head + (tag@ + " needs "@ + joined(tag_names(needed@))));
            },
            Error::MissingRoles(roles) => {
                out.append("at least one of ");
                write_items(&mut out, roles.as_slice());
                assert(names_of(roles@) =~= role_names(roles@));
                assert(out@ =~= head + ("at least one of "@ + joined(role_names(roles@))));
            },
            Error::IncompatibleTags(first, second) => {
                out.append(first.as_str());
                out.append(" and ");
                out.append(second.as_str());
                assert(out@ =~= head + (first@ + " and "@ + second@));
            },
            Error::MissingTag(tag) => {
                out.append(tag.as_str());
            },
            Error::MissingRole(role) => {
                out.append(role.as_str());
            },
            Error::NoSuchTag(name) => {
                out.append(name.as_str());
            },
            Error::NoSuchRole(name) => {
                out.append(name.as_str());
            },
            Error::Other(_) => {
                assert(out@ =~= head + Seq::<char>::empty());
            },
        }
        out
    }
}

} // verus!
