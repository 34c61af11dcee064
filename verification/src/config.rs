//! Global settings: the credential for the remote host and the default
//! assignee for new pull requests.

use vstd::prelude::*;

use crate::errors::StError;
use crate::errors::StResult;

verus! {

/// The global configuration.
pub struct StConfig {
    /// The credential used against the remote host's API.
    pub github_token: String,
    /// The user assigned to newly created pull requests, once chosen.
    pub default_assignee: Option<String>,
}

impl StConfig {
    /// A configuration is valid when it carries a non-empty credential.
    pub open spec fn valid(self) -> bool {
        self.github_token@.len() != 0
    }

    /// Checks the configuration before use.
    pub fn validate(&self) -> (r: StResult<()>)
        ensures
            (r is Ok) == self.valid(),
            r is Err ==> r->Err_0 is ConfigInvalid,
    {
        let empty = String::new();
        if self.github_token == empty {
            Err(StError::ConfigInvalid)
        } else {
            proof {
                if self.github_token@.len() == 0 {
                    assert(self.github_token@ =~= empty@);
                }
            }
            Ok(())
        }
    }
}

} // verus!
