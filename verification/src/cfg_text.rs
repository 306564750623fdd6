//! Reading one configuration value from text, as `cargo_platform` does.
//!
//! Nothing in this file is proved. The function makes one call outside
//! this library, and its contract records what that call is trusted to do.

use crate::platform::{Cfg, CfgView};
use vstd::prelude::*;

verus! {

/// Why `cargo_platform` could not read a text. Nothing is known of it
/// here.
#[verifier::external_type_specification]
#[verifier::external_body]
pub struct ExParseError(cargo_platform::ParseError);

/// The configuration value that `cargo_platform` reads from `line`, or
/// `None` where `line` is not one configuration value.
pub uninterp spec fn cfg_of_text(line: Seq<char>) -> Option<CfgView>;

/// `<Cfg as FromStr>::from_str` of `cargo_platform`: reads one
/// configuration value, a name or a key with a quoted value. What it gives
/// depends on the text alone, and it does not panic.
#[verifier::external_body]
pub(crate) fn parse_cfg(line: &str) -> (res: Result<Cfg, cargo_platform::ParseError>)
    ensures
        match res {
            Ok(cfg) => cfg_of_text(line@) == Some(cfg@),
            Err(_) => cfg_of_text(line@) is None,
        },
{
    match line.parse::<cargo_platform::Cfg>() {
        Ok(cargo_platform::Cfg::Name(name)) => Ok(Cfg::Name(name)),
        Ok(cargo_platform::Cfg::KeyPair(key, value)) => Ok(Cfg::KeyPair(key, value)),
        Err(e) => Err(e),
    }
}

} // verus!
