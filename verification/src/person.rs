//! The person data model: a name, a non-negative age, and an optional email
//! address, with construction, a builder-style email setter, an adulthood
//! predicate, and a greeting formatter with an exact textual contract.

use vstd::prelude::*;
use vstd::string::StringExecFns;

use crate::decimal::{append_dec, dec_digits};

verus! {

/// The mathematical value of a person: the name and optional email as
/// character sequences, and the age.
#[verifier::ext_equal]
pub struct PersonV {
    pub name: Seq<char>,
    pub age: u32,
    pub email: Option<Seq<char>>,
}

/// A person with a name, an age, and an optional email address.
#[derive(Debug, Clone, PartialEq)]
pub struct Person {
    pub name: String,
    pub age: u32,
    pub email: Option<String>,
}

impl View for Person {
    type V = PersonV;

    open spec fn view(&self) -> PersonV {
        PersonV { name: self.name@, age: self.age, email: self.email.deep_view() }
    }
}

impl DeepView for Person {
    type V = PersonV;

    open spec fn deep_view(&self) -> PersonV {
        self.view()
    }
}

/// The exact greeting text for a person: a fixed prefix, the name, a fixed
/// middle, the age in decimal, and a fixed suffix.
pub open spec fn spec_greet(p: PersonV) -> Seq<char> {
    "Hello, my name is "@ + p.name + " and I'm "@ + dec_digits(p.age as nat)
        + " years old!"@
}

impl Person {
    /// Creates a new person with no email address.
    pub fn new(name: String, age: u32) -> (r: Person)
        ensures
            r@.name == name@,
            r@.age == age,
            r@.email is None,
    {
        Person { name, age, email: None }
    }

    /// Returns a person equal to this one in name and age, with the email
    /// set to the given value.
    pub fn with_email(self, email: String) -> (r: Person)
        ensures
            r@.name == self@.name,
            r@.age == self@.age,
            r@.email == Some(email@),
    {
        Person { name: self.name, age: self.age, email: Some(email) }
    }

    /// True exactly when the person is an adult, that is, eighteen or older.
    pub fn is_adult(&self) -> (r: bool)
        ensures
            r == (self@.age >= 18),
    {
        self.age >= 18
    }

    /// Produces the greeting text of this person; the email is never
    /// mentioned.
    pub fn greet(&self) -> (r: String)
        ensures
            r@ == spec_greet(self@),
    {
        let mut s = String::new();
        s.append("Hello, my name is ");
        s.append(self.name.as_str());
        s.append(" and I'm ");
        append_dec(&mut s, self.age);
        s.append(" years old!");
        proof {
            assert(s@ =~= spec_greet(self@));
        }
        s
    }
}

} // verus!
