//! The tool's configuration: input files and the optional registry
//! credential.

use vstd::prelude::*;

use crate::subnet::Subnet;

verus! {

/// Relative path, under the user's home directory, of the registry
/// credential file.
pub const IPINFO_TOKEN_FILE: &'static str = ".ipinfo/token";

/// Resolved configuration. The credential, when wanted, is read by the
/// caller and handed in as a plain value.
pub struct Config {
    pub file_names: Vec<String>,
    pub ipinfo_token: Option<String>,
    pub ipinfo_use_cache: bool,
}

impl Config {
    /// Assembles a configuration from already-resolved values.
    pub fn from_parts(file_names: Vec<String>, ipinfo_token: Option<String>) -> (r: Config)
        ensures
            r.file_names == file_names,
            r.ipinfo_token == ipinfo_token,
            r.ipinfo_use_cache == true,
    {
        Config { file_names, ipinfo_token, ipinfo_use_cache: true }
    }

    /// Whether any input file was named.
    pub fn has_files(&self) -> (r: bool)
        ensures
            r == (self.file_names@.len() != 0),
    {
        !self.file_names.is_empty()
    }

    /// The registry lookup URL for one subnet; only meaningful once a
    /// credential is present.
    pub fn url_of(&self, address: &Subnet) -> (r: String)
        requires
            self.ipinfo_token is Some,
        ensures
            r@ == "https://ipinfo.io/"@ + address.text_spec() + "?token="@
                + self.ipinfo_token->0@,
    {
        let mut out = "https://ipinfo.io/".to_owned();
        let t = address.to_text();
        out.append(t.as_str());
        out.append("?token=");
        match &self.ipinfo_token {
            Some(tok) => out.append(tok.as_str()),
            None => {
                proof {
                    assert(false);
                }
            },
        }
        out
    }
}

} // verus!
