//! Traits that build on other traits: a computer science student is a programmer and a
//! student, and a student is a person.
use vstd::prelude::*;

use crate::error_framework::joined;

verus! {

/// Someone with a name.
pub trait Person {
    /// The name.
    spec fn name_text(&self) -> Seq<char>;

    fn name(&self) -> (r: String)
        ensures
            r@ == self.name_text(),
    ;
}

/// A person who attends a university.
pub trait Student: Person {
    /// The university.
    spec fn university_text(&self) -> Seq<char>;

    fn university(&self) -> (r: String)
        ensures
            r@ == self.university_text(),
    ;
}

/// Someone with a favourite programming language.
pub trait Programmer {
    /// The favourite language.
    spec fn fav_language_text(&self) -> Seq<char>;

    fn fav_language(&self) -> (r: String)
        ensures
            r@ == self.fav_language_text(),
    ;
}

/// A student who programs, and has a Git user name.
pub trait CompSciStudent: Programmer + Student {
    /// The Git user name.
    spec fn git_username_text(&self) -> Seq<char>;

    fn git_username(&self) -> (r: String)
        ensures
            r@ == self.git_username_text(),
    ;
}

/// How a computer science student introduces themself.
pub fn comp_sci_student_greeting<S: CompSciStudent>(student: &S) -> (r: String)
    ensures
        r@ == "My name is "@ + student.name_text() + " and I attend "@ + student.university_text()
            + ". My favorite language is "@ + student.fav_language_text() + ". My Git username is "@
            + student.git_username_text(),
{
    let mut r = joined("My name is ", student.name().as_str());
    r.append(" and I attend ");
    r.append(student.university().as_str());
    r.append(". My favorite language is ");
    r.append(student.fav_language().as_str());
    r.append(". My Git username is ");
    r.append(student.git_username().as_str());
    r
}

/// A computer science student described by four texts.
pub struct CSStudent {
    pub name: String,
    pub university: String,
    pub fav_language: String,
    pub git_username: String,
}

impl Programmer for CSStudent {
    open spec fn fav_language_text(&self) -> Seq<char> {
        self.fav_language@
    }

    fn fav_language(&self) -> (r: String) {
        self.fav_language.clone()
    }
}

impl Student for CSStudent {
    open spec fn university_text(&self) -> Seq<char> {
        self.university@
    }

    fn university(&self) -> (r: String) {
        self.university.clone()
    }
}

impl Person for CSStudent {
    open spec fn name_text(&self) -> Seq<char> {
        self.name@
    }

    fn name(&self) -> (r: String) {
        self.name.clone()
    }
}

impl CompSciStudent for CSStudent {
    open spec fn git_username_text(&self) -> Seq<char> {
        self.git_username@
    }

    fn git_username(&self) -> (r: String) {
        self.git_username.clone()
    }
}

} // verus!
