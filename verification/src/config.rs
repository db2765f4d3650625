//! The exporter's own settings.

use crate::text::push_text;
use vstd::prelude::*;

verus! {

/// Where the status document is fetched from, with which credentials, and where the
/// replacement table lies.
pub struct Config {
    pub nc_url: String,
    pub nc_user: String,
    pub nc_password: String,
    pub nc_replacement_config: String,
}

impl Default for Config {
    /// No address and no credentials; the replacement table in `replacements.json`.
    fn default() -> (config: Self)
        ensures
            config.nc_url@ == Seq::<char>::empty(),
            config.nc_user@ == Seq::<char>::empty(),
            config.nc_password@ == Seq::<char>::empty(),
            config.nc_replacement_config@ == "replacements.json"@,
    {
        Config {
            nc_url: String::new(),
            nc_user: String::new(),
            nc_password: String::new(),
            nc_replacement_config: "replacements.json".to_owned(),
        }
    }
}

impl Config {
    /// What is shown of the password: five stars if there is one, nothing if not.
    pub open spec fn masked_password(self) -> Seq<char> {
        if self.nc_password@.len() > 0 {
            "*****"@
        } else {
            ""@
        }
    }

    /// The settings as text for a log, the password masked.
    pub open spec fn text(self) -> Seq<char> {
        "nce config:\nnc_url = \""@ + self.nc_url@ + "\"\nnc_user = \""@ + self.nc_user@
            + "\"\nnc_password = \""@ + self.masked_password() + "\"\nnc_replacement_config = \""@
            + self.nc_replacement_config@ + "\""@
    }

    /// Writes the settings as text for a log. The password itself is never written.
    pub fn to_text(&self) -> (out: String)
        ensures
            out@ == self.text(),
    {
        let mut out = String::new();
        push_text(&mut out, "nce config:\nnc_url = \"");
        push_text(&mut out, self.nc_url.as_str());
        push_text(&mut out, "\"\nnc_user = \"");
        push_text(&mut out, self.nc_user.as_str());
        push_text(&mut out, "\"\nnc_password = \"");
        if self.nc_password.as_str().is_empty() {
            push_text(&mut out, "");
        } else {
            push_text(&mut out, "*****");
        }
        push_text(&mut out, "\"\nnc_replacement_config = \"");
        push_text(&mut out, self.nc_replacement_config.as_str());
        push_text(&mut out, "\"");
        proof {
            assert(out@ =~= self.text());
        }
        out
    }
}

} // verus!
