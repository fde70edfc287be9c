//! Account-model types the hosting layer persists and passes around, and
//! the role rule its route guards enforce.  The codec itself never touches
//! these; they are plain data with the one decision the guards need.

use vstd::prelude::*;
use crate::text::trim_spec;
use crate::webtext::str_eq;

verus! {

/// A stored account row.
#[derive(Clone, Debug)]
pub struct User {
    pub id: i64,
    pub login: String,
    pub hashed_password: String,
    pub role: String,
    pub dashboards: String,
}

/// A login or first-setup request body.
pub struct UserInput {
    pub login: String,
    pub password: String,
}

/// The claims carried inside a session token.
#[derive(Clone)]
pub struct Claims {
    pub sub: String,
    pub role: String,
    pub exp: usize,
}

/// An administrator's create-account request body.
pub struct CreateUserInput {
    pub login: String,
    pub password: String,
    pub role: String,
}

/// An administrator's update-account request body.
pub struct UpdateUserInput {
    pub id: i64,
    pub role: Option<String>,
    pub dashboards: Option<String>,
}

/// Whether a token's role passes a guard that demands `required`: the
/// exact role always passes, and the superuser role passes every guard.
pub fn role_allows(role: &str, required: &str) -> (b: bool)
    ensures
        b == (role@ == required@ || role@ == "SuperAdmin"@),
{
    str_eq(role, required) || str_eq(role, "SuperAdmin")
}

impl Claims {
    /// Whether these claims pass a guard that demands `required`.
    pub fn allows(&self, required: &str) -> (b: bool)
        ensures
            b == (self.role@ == required@ || self.role@ == "SuperAdmin"@),
    {
        role_allows(self.role.as_str(), required)
    }
}

impl CreateUserInput {
    /// Whether the request names both a login and a password once trimmed
    /// — the rule under which an account may be created.
    pub fn is_complete(&self) -> (b: bool)
        ensures
            b == (trim_spec(self.login@).len() > 0 && trim_spec(self.password@).len() > 0),
    {
        let lv = crate::text::str_to_chars(self.login.as_str());
        let lt = crate::text::trim_chars(&lv);
        let pv = crate::text::str_to_chars(self.password.as_str());
        let pt = crate::text::trim_chars(&pv);
        lt.len() > 0 && pt.len() > 0
    }
}

impl UpdateUserInput {
    /// Whether the request changes anything at all — the rule under which
    /// an update is accepted.
    pub fn has_changes(&self) -> (b: bool)
        ensures
            b == (self.role is Some || self.dashboards is Some),
    {
        match (&self.role, &self.dashboards) {
            (None, None) => false,
            _ => true,
        }
    }
}

} // verus!
