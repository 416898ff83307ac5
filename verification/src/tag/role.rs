use crate::text::{share, share_again, shared_is, shared_string, shared_text};
use easy_strings::EZString;
use vstd::prelude::*;

verus! {

/// An owned reference to a role.
///
/// An immutable, non-empty, case-sensitive name, which is cheap to clone
/// because the buffer is shared. It names a capability that an actor may
/// hold. Two roles are equal when their names are.
///
/// See also [`Tag`](crate::Tag).
#[derive(Hash)]
pub struct Role(EZString);

impl View for Role {
    type V = Seq<char>;

    /// The role's name.
    closed spec fn view(&self) -> Seq<char> {
        shared_text(self.0)
    }
}

impl Role {
    #[verifier::type_invariant]
    spec fn named(self) -> bool {
        shared_text(self.0).len() > 0
    }

    /// Creates a role with the given name, which may not be empty.
    pub fn new(name: &str) -> (role: Role)
        requires
            name@.len() > 0,
        ensures
            role@ == name@,
    {
        Role(share(name.to_owned()))
    }

    /// The role's name.
    pub fn as_str(&self) -> (name: &str)
        ensures
            name@ == self@,
            name@.len() > 0,
    {
        proof {
            use_type_invariant(self);
        }
        shared_string(&self.0).as_str()
    }

    /// Whether the role has that name.
    pub fn is_named(&self, name: &str) -> (same: bool)
        ensures
            same == (self@ == name@),
    {
        shared_is(&self.0, name)
    }

    /// The role's name, as an owned string.
    pub fn to_string(&self) -> (name: String)
        ensures
            name@ == self@,
    {
        shared_string(&self.0).as_str().to_owned()
    }
}

impl Clone for Role {
    fn clone(&self) -> (role: Role)
        ensures
            role@ == self@,
    {
        proof {
            use_type_invariant(self);
        }
        Role(share_again(&self.0))
    }
}

impl PartialEq for Role {
    fn eq(&self, other: &Role) -> (same: bool) {
        shared_is(&self.0, shared_string(&other.0).as_str())
    }
}

impl Eq for Role {}

impl std::fmt::Debug for Role {
    /// Writes `Role("<name>")` with `write!`, the name as std quotes a
    /// string. Nothing is claimed of what is written.
    #[verifier::external_body]
    fn fmt(&self, f: &mut std::fmt::Formatter<'_>) -> std::fmt::Result {
        write!(f, "Role({:?})", *self.0)
    }
}

impl AsRef<str> for Role {
    fn as_ref(&self) -> (name: &str)
        ensures
            <str as View>::view(name) == self@,
    {
        self.as_str()
    }
}

impl std::borrow::Borrow<str> for Role {
    fn borrow(&self) -> (name: &str)
        ensures
            <str as View>::view(name) == self@,
    {
        self.as_str()
    }
}

impl std::ops::Deref for Role {
    type Target = str;

    fn deref(&self) -> (name: &str)
        ensures
            name@ == self@,
    {
        self.as_str()
    }
}

impl AsRef<String> for Role {
    fn as_ref(&self) -> (name: &String)
        ensures
            <String as View>::view(name) == self@,
    {
        shared_string(&self.0)
    }
}

impl std::borrow::Borrow<String> for Role {
    fn borrow(&self) -> (name: &String)
        ensures
            <String as View>::view(name) == self@,
    {
        shared_string(&self.0)
    }
}

impl vstd::std_specs::cmp::PartialEqSpecImpl for Role {
    open spec fn obeys_eq_spec() -> bool {
        true
    }

    open spec fn eq_spec(&self, other: &Role) -> bool {
        self@ == other@
    }
}

/// The names of a sequence of roles, in order.
pub open spec fn role_names(roles: Seq<Role>) -> Seq<Seq<char>> {
    roles.map_values(|role: Role| role@)
}

} // verus!
