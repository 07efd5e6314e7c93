use vstd::prelude::*;
use vstd::string::StringExecFns;

verus! {

/// The strategy that builds the primary soft alignment.
#[derive(Clone, Copy, Debug, PartialEq, Eq, Structural)]
pub enum SoftAlgorithm {
    /// The statistical base model, computed outside this library.
    Ibm1,
    /// The lexical-similarity scorer.
    Levenstein,
}

/// The decision pipeline that turns soft alignments into hard ones.
#[derive(Clone, Copy, Debug, PartialEq, Eq, Structural)]
pub enum HardAlgorithm {
    /// The global-maximum rule alone.
    Argmax,
    /// The global-maximum rule intersected with a fixed threshold.
    Basic,
    /// The grid search against gold alignments.
    Search,
}

/// A configuration that cannot run.
#[derive(Clone, Copy, Debug, PartialEq, Eq, Structural)]
pub enum ConfigError {
    UnknownSoftAlgorithm,
    UnknownHardAlgorithm,
    MissingGoldFile,
}

/// The soft strategy named `name`, if any.
pub open spec fn soft_named(name: Seq<char>) -> Option<SoftAlgorithm> {
    if name == "ibm1"@ {
        Some(SoftAlgorithm::Ibm1)
    } else if name == "levenstein"@ {
        Some(SoftAlgorithm::Levenstein)
    } else {
        None
    }
}

/// The hard pipeline named `name`, if any.
pub open spec fn hard_named(name: Seq<char>) -> Option<HardAlgorithm> {
    if name == "argmax"@ {
        Some(HardAlgorithm::Argmax)
    } else if name == "basic"@ {
        Some(HardAlgorithm::Basic)
    } else if name == "search"@ {
        Some(HardAlgorithm::Search)
    } else {
        None
    }
}

/// Reads the name of a soft strategy.
pub fn parse_soft(name: &String) -> (r: Option<SoftAlgorithm>)
    ensures
        r == soft_named(name@),
{
    if *name == String::from_str("ibm1") {
        Some(SoftAlgorithm::Ibm1)
    } else if *name == String::from_str("levenstein") {
        Some(SoftAlgorithm::Levenstein)
    } else {
        None
    }
}

/// Reads the name of a hard pipeline.
pub fn parse_hard(name: &String) -> (r: Option<HardAlgorithm>)
    ensures
        r == hard_named(name@),
{
    if *name == String::from_str("argmax") {
        Some(HardAlgorithm::Argmax)
    } else if *name == String::from_str("basic") {
        Some(HardAlgorithm::Basic)
    } else if *name == String::from_str("search") {
        Some(HardAlgorithm::Search)
    } else {
        None
    }
}

/// Checks a run's configuration: the soft strategy's name, then the hard pipeline's, then
/// that gold alignments are given when the pipeline searches.
pub fn check_config(soft: &String, hard: &String, has_gold: bool) -> (r: Result<(SoftAlgorithm, HardAlgorithm), ConfigError>)
    ensures
        soft_named(soft@) is None ==> r == Err::<(SoftAlgorithm, HardAlgorithm), ConfigError>(ConfigError::UnknownSoftAlgorithm),
        soft_named(soft@) is Some && hard_named(hard@) is None ==> r == Err::<(SoftAlgorithm, HardAlgorithm), ConfigError>(
            ConfigError::UnknownHardAlgorithm,
        ),
        soft_named(soft@) is Some && hard_named(hard@) == Some(HardAlgorithm::Search) && !has_gold ==> r == Err::<(SoftAlgorithm, HardAlgorithm), ConfigError>(
            ConfigError::MissingGoldFile,
        ),
        soft_named(soft@) is Some && hard_named(hard@) is Some && (has_gold || hard_named(hard@) != Some(HardAlgorithm::Search))
            ==> r == Ok::<(SoftAlgorithm, HardAlgorithm), ConfigError>((soft_named(soft@).unwrap(), hard_named(hard@).unwrap())),
{
    let s = match parse_soft(soft) {
        Some(s) => s,
        None => {
            return Err(ConfigError::UnknownSoftAlgorithm);
        },
    };
    let h = match parse_hard(hard) {
        Some(h) => h,
        None => {
            return Err(ConfigError::UnknownHardAlgorithm);
        },
    };
    if h == HardAlgorithm::Search && !has_gold {
        return Err(ConfigError::MissingGoldFile);
    }
    Ok((s, h))
}

} // verus!
