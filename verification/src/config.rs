//! The user identity stored in the repository's config file.
//! Reading and writing the TOML file itself is the caller's concern;
//! the core only holds the values.

use vstd::prelude::*;

verus! {

/// A user: a name, and optionally an email address.
#[derive(Debug, PartialEq)]
pub struct User {
    pub name: String,
    pub email: Option<String>,
}

impl User {
    pub fn new(name: String, email: Option<String>) -> (r: Self)
        ensures
            r.name == name,
            r.email == email,
    {
        Self { name, email }
    }
}

/// The configuration: the user who authors commits.
#[derive(Debug, PartialEq)]
pub struct Config {
    pub user: User,
}

impl Config {
    pub fn new(user: User) -> (r: Self)
        ensures
            r.user == user,
    {
        Self { user }
    }

    /// The configured user name.
    pub fn username(&self) -> (r: String)
        ensures
            r@ == self.user.name@,
    {
        let r = crate::repository::clone_string(&self.user.name);
        r
    }

    /// The configured email address, if any.
    pub fn useremail(&self) -> (r: Option<String>)
        ensures
            match r {
                Some(e) => self.user.email matches Some(s) && s@ == e@,
                None => self.user.email is None,
            },
    {
        match &self.user.email {
            Some(e) => Some(crate::repository::clone_string(e)),
            None => None,
        }
    }
}

} // verus!
