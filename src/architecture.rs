use vstd::prelude::*;

verus! {

/// The hardware layouts a benchmark run can be configured for.
#[derive(Debug, Clone, Copy, PartialEq, Eq, Structural)]
pub enum HardwareArchitecture {
    SsdStandalone,
    DramRandomPartitioning,
    DramBalancedLshPartitioned,
    DramBalancedHnswPartitioned,
}

} // verus!
