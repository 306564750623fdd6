//! The platform that a graph is built for: which target, and with which
//! configuration.

use crate::cfg_text::{cfg_of_text, parse_cfg};
use crate::error::Error;
use crate::platform::Cfg;
use vstd::prelude::*;

verus! {

/// The target that a graph is built for, given what was asked for: no
/// target where none was asked for, the host where a target was asked for
/// without a name, and else the target that was named.
pub open spec fn chosen_target(requested: Option<Option<String>>, host: Seq<char>) -> Option<
    Seq<char>,
> {
    match requested {
        None => None,
        Some(None) => Some(host),
        Some(Some(t)) => Some(t@),
    }
}

/// The target that a graph is built for. See [`chosen_target`].
pub fn effective_target(requested: &Option<Option<String>>, host: &str) -> (res: Option<String>)
    ensures
        res.deep_view() == chosen_target(*requested, host@),
{
    match requested {
        None => None,
        Some(None) => Some(host.to_owned()),
        Some(Some(t)) => Some(t.clone()),
    }
}

/// Line `i` is the first of `lines` that is no configuration value.
pub open spec fn first_unreadable(lines: Seq<Seq<char>>, i: int) -> bool {
    &&& 0 <= i < lines.len()
    &&& cfg_of_text(lines[i]) is None
    &&& forall|j: int| 0 <= j < i ==> cfg_of_text(#[trigger] lines[j]) is Some
}

/// `cfgs` are the configuration values of `lines`, line by line.
pub open spec fn read_as(lines: Seq<Seq<char>>, cfgs: Seq<Cfg>) -> bool {
    &&& cfgs.len() == lines.len()
    &&& forall|i: int| 0 <= i < lines.len() ==> cfg_of_text(#[trigger] lines[i]) == Some(cfgs[i]@)
}

/// What reading `lines` comes to: the values of all lines, or the first
/// line that is no value.
pub open spec fn reading(lines: Seq<Seq<char>>, res: Result<Vec<Cfg>, Error>) -> bool {
    match res {
        Ok(cfgs) => read_as(lines, cfgs@),
        Err(Error::InvalidCfg(line)) => exists|i: int|
            #[trigger] first_unreadable(lines, i) && line@ == lines[i],
        Err(_) => false,
    }
}

/// What becomes of one line, given what the parser made of it: its value,
/// or the line itself as the failure.
pub fn cfg_of_line(line: &String, parsed: Result<Cfg, cargo_platform::ParseError>) -> (res:
    Result<Cfg, Error>)
    ensures
        match parsed {
            Ok(cfg) => res == Ok::<Cfg, Error>(cfg),
            Err(_) => res matches Err(Error::InvalidCfg(kept)) && kept@ == line@,
        },
{
    match parsed {
        Ok(cfg) => Ok(cfg),
        Err(_) => Err(Error::InvalidCfg(line.clone())),
    }
}

/// Reads the configuration of a target from the lines that the compiler
/// prints of it, one value from each line. The first line that is no value
/// ends the reading.
pub fn cfgs_of_lines(lines: &[String]) -> (res: Result<Vec<Cfg>, Error>)
    ensures
        reading(lines.deep_view(), res),
        res is Ok <==> forall|i: int|
            0 <= i < lines@.len() ==> cfg_of_text(#[trigger] lines@[i]@) is Some,
{
    let ghost texts = lines.deep_view();
    let mut cfgs: Vec<Cfg> = Vec::new();
    let mut i: usize = 0;
    while i < lines.len()
        invariant
            i <= lines.len(),
            texts == lines.deep_view(),
            cfgs.len() == i,
            forall|j: int| 0 <= j < i ==> cfg_of_text(#[trigger] texts[j]) == Some(cfgs@[j]@),
        decreases lines.len() - i,
    {
        let line = &lines[i];
        assert(texts[i as int] == line@);
        match cfg_of_line(line, parse_cfg(line.as_str())) {
            Ok(cfg) => {
                cfgs.push(cfg);
            },
            Err(e) => {
                assert(first_unreadable(texts, i as int));
                assert(cfg_of_text(lines@[i as int]@) is None);
                return Err(e);
            },
        }
        i = i + 1;
    }
    assert forall|i: int| 0 <= i < lines@.len() implies cfg_of_text(#[trigger] lines@[i]@)
        is Some by {
        assert(texts[i] == lines@[i]@);
    }
    Ok(cfgs)
}

} // verus!
