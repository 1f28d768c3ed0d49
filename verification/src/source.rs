//! Entropy source categories.

use vstd::prelude::*;

verus! {

/// Category of entropy source, used for classification and filtering.
#[derive(Debug, Clone, Copy, PartialEq, Eq, Structural, Hash)]
pub enum SourceCategory {
    Timing,
    System,
    Network,
    Hardware,
    Silicon,
    CrossDomain,
    Novel,
    Frontier,
    Thermal,
    Scheduling,
    IO,
    IPC,
    Microarch,
    GPU,
    Composite,
    Signal,
    Sensor,
}

/// The display label of a category.
pub open spec fn spec_category_name(c: SourceCategory) -> Seq<char> {
    match c {
        SourceCategory::Timing => "timing"@,
        SourceCategory::System => "system"@,
        SourceCategory::Network => "network"@,
        SourceCategory::Hardware => "hardware"@,
        SourceCategory::Silicon => "silicon"@,
        SourceCategory::CrossDomain => "cross_domain"@,
        SourceCategory::Novel => "novel"@,
        SourceCategory::Frontier => "frontier"@,
        SourceCategory::Thermal => "thermal"@,
        SourceCategory::Scheduling => "scheduling"@,
        SourceCategory::IO => "io"@,
        SourceCategory::IPC => "ipc"@,
        SourceCategory::Microarch => "microarch"@,
        SourceCategory::GPU => "gpu"@,
        SourceCategory::Composite => "composite"@,
        SourceCategory::Signal => "signal"@,
        SourceCategory::Sensor => "sensor"@,
    }
}

impl SourceCategory {
    /// The display label of this category.
    pub fn to_string(&self) -> (s: String)
        ensures
            s@ == spec_category_name(*self),
    {
        match self {
            SourceCategory::Timing => String::from_str("timing"),
            SourceCategory::System => String::from_str("system"),
            SourceCategory::Network => String::from_str("network"),
            SourceCategory::Hardware => String::from_str("hardware"),
            SourceCategory::Silicon => String::from_str("silicon"),
            SourceCategory::CrossDomain => String::from_str("cross_domain"),
            SourceCategory::Novel => String::from_str("novel"),
            SourceCategory::Frontier => String::from_str("frontier"),
            SourceCategory::Thermal => String::from_str("thermal"),
            SourceCategory::Scheduling => String::from_str("scheduling"),
            SourceCategory::IO => String::from_str("io"),
            SourceCategory::IPC => String::from_str("ipc"),
            SourceCategory::Microarch => String::from_str("microarch"),
            SourceCategory::GPU => String::from_str("gpu"),
            SourceCategory::Composite => String::from_str("composite"),
            SourceCategory::Signal => String::from_str("signal"),
            SourceCategory::Sensor => String::from_str("sensor"),
        }
    }
}

} // verus!
