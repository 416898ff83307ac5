use crate::text::{share, share_again, shared_is, shared_string, shared_text};
use easy_strings::EZString;
use vstd::prelude::*;

verus! {

/// An owned reference to a tag.
///
/// An immutable, non-empty, case-sensitive name, which is cheap to clone
/// because the buffer is shared. It names either a proper tag or a tag
/// group. Two tags are equal when their names are.
///
/// See also [`Role`](crate::Role).
#[derive(Hash)]
pub struct Tag(EZString);

impl View for Tag {
    type V = Seq<char>;

    /// The tag's name.
    closed spec fn view(&self) -> Seq<char> {
        shared_text(self.0)
    }
}

impl Tag {
    #[verifier::type_invariant]
    spec fn named(self) -> bool {
        shared_text(self.0).len() > 0
    }

    /// Creates a tag with the given name, which may not be empty.
    pub fn new(name: &str) -> (tag: Tag)
        requires
            name@.len() > 0,
        ensures
            tag@ == name@,
    {
        Tag(share(name.to_owned()))
    }

    /// The tag's name.
    pub fn as_str(&self) -> (name: &str)
        ensures
            name@ == self@,
            name@.len() > 0,
    {
        proof {
            use_type_invariant(self);
        }
        shared_string(&self.0).as_str()
    }

    /// Whether the tag has that name.
    pub fn is_named(&self, name: &str) -> (same: bool)
        ensures
            same == (self@ == name@),
    {
        shared_is(&self.0, name)
    }

    /// The tag's name, as an owned string.
    pub fn to_string(&self) -> (name: String)
        ensures
            name@ == self@,
    {
        shared_string(&self.0).as_str().to_owned()
    }
}

impl Clone for Tag {
    fn clone(&self) -> (tag: Tag)
        ensures
            tag@ == self@,
    {
        proof {
            use_type_invariant(self);
        }
        Tag(share_again(&self.0))
    }
}

impl PartialEq for Tag {
    fn eq(&self, other: &Tag) -> (same: bool) {
        shared_is(&self.0, shared_string(&other.0).as_str())
    }
}

impl Eq for Tag {}

impl std::fmt::Debug for Tag {
    /// Writes `Tag("<name>")` with `write!`, the name as std quotes a
    /// string. Nothing is claimed of what is written.
    #[verifier::external_body]
    fn fmt(&self, f: &mut std::fmt::Formatter<'_>) -> std::fmt::Result {
        write!(f, "Tag({:?})", *self.0)
    }
}

impl AsRef<str> for Tag {
    fn as_ref(&self) -> (name: &str)
        ensures
            <str as View>::view(name) == self@,
    {
        self.as_str()
    }
}

impl std::borrow::Borrow<str> for Tag {
    fn borrow(&self) -> (name: &str)
        ensures
            <str as View>::view(name) == self@,
    {
        self.as_str()
    }
}

impl std::ops::Deref for Tag {
    type Target = str;

    fn deref(&self) -> (name: &str)
        ensures
            name@ == self@,
    {
        self.as_str()
    }
}

impl AsRef<String> for Tag {
    fn as_ref(&self) -> (name: &String)
        ensures
            <String as View>::view(name) == self@,
    {
        shared_string(&self.0)
    }
}

impl std::borrow::Borrow<String> for Tag {
    fn borrow(&self) -> (name: &String)
        ensures
            <String as View>::view(name) == self@,
    {
        shared_string(&self.0)
    }
}

impl vstd::std_specs::cmp::PartialEqSpecImpl for Tag {
    open spec fn obeys_eq_spec() -> bool {
        true
    }

    open spec fn eq_spec(&self, other: &Tag) -> bool {
        self@ == other@
    }
}

/// The names of a sequence of tags, in order.
pub open spec fn tag_names(tags: Seq<Tag>) -> Seq<Seq<char>> {
    tags.map_values(|tag: Tag| tag@)
}

} // verus!
