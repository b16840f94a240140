use vstd::prelude::*;
use crate::error::EvalError;

verus! {

/// The closed set of features that are disabled by default and only usable
/// after an explicit process-wide opt-in.
#[derive(Clone, Copy, Debug, PartialEq, Eq, Structural, PartialOrd, Ord)]
pub enum UnstableFeature {
    FormatSubcommand,
    LazySetting,
    LogicalOperators,
    WhichFunction,
}

impl UnstableFeature {
    /// The fixed, human-readable description of this feature's instability.
    /// Exactly one message per variant, chosen by construction.
    pub open spec fn spec_message(self) -> Seq<char> {
        match self {
            UnstableFeature::FormatSubcommand => "The `--fmt` command is currently unstable."@,
            UnstableFeature::LazySetting => "The `lazy` setting is currently unstable."@,
            UnstableFeature::LogicalOperators => "The logical operators `&&` and `||` are currently unstable."@,
            UnstableFeature::WhichFunction => "The `which()` function is currently unstable."@,
        }
    }

    /// Renders the fixed instability message for this feature.
    pub fn message(&self) -> (r: String)
        ensures
            r@ == self.spec_message(),
    {
        match self {
            UnstableFeature::FormatSubcommand => String::from_str(
                "The `--fmt` command is currently unstable.",
            ),
            UnstableFeature::LazySetting => String::from_str(
                "The `lazy` setting is currently unstable.",
            ),
            UnstableFeature::LogicalOperators => String::from_str(
                "The logical operators `&&` and `||` are currently unstable.",
            ),
            UnstableFeature::WhichFunction => String::from_str(
                "The `which()` function is currently unstable.",
            ),
        }
    }
}

/// Consulted before any behavior backed by an unstable feature runs.
///
/// The process-wide opt-in signal is initialized once at start-up from the
/// environment (outside this library) and is read-only during evaluation; it
/// is modeled here as an explicitly passed configuration value.
#[derive(Clone, Copy, Debug, PartialEq, Eq, Structural)]
pub struct FeatureGate {
    pub unstable_enabled: bool,
}

impl FeatureGate {
    pub fn new(unstable_enabled: bool) -> (r: FeatureGate)
        ensures
            r.unstable_enabled == unstable_enabled,
    {
        FeatureGate { unstable_enabled }
    }

    /// Checks whether `feature` may be used: succeeds exactly when the
    /// opt-in signal is present; otherwise reports the feature together with
    /// its fixed instability message. Idempotent and free of side effects.
    pub fn check(&self, feature: UnstableFeature) -> (r: Result<(), EvalError>)
        ensures
            self.unstable_enabled ==> r is Ok,
            !self.unstable_enabled ==> {
                &&& r matches Err(EvalError::Unstable { feature: f, message: m })
                &&& f == feature
                &&& m@ == feature.spec_message()
            },
    {
        if self.unstable_enabled {
            Ok(())
        } else {
            Err(EvalError::Unstable { feature, message: feature.message() })
        }
    }
}

} // verus!
