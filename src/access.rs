//! Secrets held for the runtime and the authentication guard.
use vstd::prelude::*;
use crate::value::{owned, Keyed};

verus! {

/// Secrets set by the host, by name.
#[derive(Debug)]
pub struct SecretStore {
    secrets: Keyed<String>,
}

impl SecretStore {
    /// The secrets held, by name.
    pub closed spec fn view_map(&self) -> Map<Seq<char>, Seq<char>> {
        self.secrets@
    }

    pub closed spec fn wf(&self) -> bool {
        self.secrets.wf()
    }

    pub fn new() -> (r: SecretStore)
        ensures
            r.wf(),
            r.view_map() == Map::<Seq<char>, Seq<char>>::empty(),
    {
        SecretStore { secrets: Keyed::new() }
    }

    /// Holds `value` under `key`.
    pub fn set(&mut self, key: &str, value: &str)
        requires
            old(self).wf(),
        ensures
            final(self).wf(),
            final(self).view_map() == old(self).view_map().insert(key@, value@),
    {
        self.secrets.insert(owned(key), owned(value));
    }

    /// The secret held under `key`.
    pub fn stored(&self, key: &str) -> (r: Option<String>)
        requires
            self.wf(),
        ensures
            r is Some <==> self.view_map().contains_key(key@),
            r matches Some(v) ==> v@ == self.view_map()[key@],
    {
        match self.secrets.get(key) {
            Some(v) => Some(v.clone()),
            None => None,
        }
    }
}

/// The claims of an authenticated caller.
#[derive(Debug)]
pub struct Claims {
    pub sub: String,
    pub exp: usize,
    pub role: String,
}

/// Checks tokens. Authentication is done by the host; every token is
/// accepted as the stand-in administrator.
pub struct AuthGuard;

impl AuthGuard {
    pub fn verify(_token: &str, _secret: &str) -> (r: Option<Claims>)
        ensures
            r matches Some(c) && c.sub@ == "stub-user"@ && c.exp == 2000000000 && c.role@ == "admin"@,
    {
        Some(Claims { sub: owned("stub-user"), exp: 2000000000, role: owned("admin") })
    }
}

} // verus!
