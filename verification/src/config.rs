//! Bindings as they come out of the configuration, and their validation.

use vstd::prelude::*;

verus! {

/// Network address of a downstream controller.
#[derive(Debug, Clone, Copy, PartialEq, Eq)]
pub enum Address {
    /// An IPv4 address, as its four octets.
    V4([u8; 4]),
    /// An IPv6 address, as its sixteen octets.
    V6([u8; 16]),
}

/// One binding: the input universes, the output universe each of them is
/// relayed to (paired by position), and the controller that receives them.
#[derive(Debug, Clone, PartialEq, Eq)]
pub struct Mapping {
    pub input_universes: Vec<u16>,
    pub output_universes: Vec<u16>,
    pub address: Address,
}

/// The whole configuration: the bindings in the order they were written.
#[derive(Debug, Clone, PartialEq, Eq)]
pub struct Config {
    pub mappings: Vec<Mapping>,
}

/// Why a configuration cannot be used.
#[derive(Debug, Clone, Copy, PartialEq, Eq)]
pub enum ConfigError {
    /// The binding at index `mapping` lists `inputs` input universes but
    /// `outputs` output universes, so they cannot be paired by position.
    LengthMismatch { mapping: usize, inputs: usize, outputs: usize },
}

/// Mathematical model of a [`Mapping`].
pub struct MappingView {
    pub inputs: Seq<u16>,
    pub outputs: Seq<u16>,
    pub address: Address,
}

impl View for Mapping {
    type V = MappingView;

    open spec fn view(&self) -> MappingView {
        MappingView {
            inputs: self.input_universes@,
            outputs: self.output_universes@,
            address: self.address,
        }
    }
}

/// The models of a list of bindings, in the same order.
pub open spec fn bindings_view(bindings: Seq<Mapping>) -> Seq<MappingView> {
    bindings.map_values(|m: Mapping| m@)
}

impl View for Config {
    type V = Seq<MappingView>;

    open spec fn view(&self) -> Seq<MappingView> {
        bindings_view(self.mappings@)
    }
}

/// A binding is paired when it has as many output as input universes.
pub open spec fn paired(m: MappingView) -> bool {
    m.inputs.len() == m.outputs.len()
}

/// Every binding of the list is paired.
pub open spec fn all_paired(bindings: Seq<MappingView>) -> bool {
    forall|i: int| 0 <= i < bindings.len() ==> paired(#[trigger] bindings[i])
}

/// What validation answers for a list of bindings: the first binding that
/// is not paired, with its two lengths, or success when there is none.
pub open spec fn validated(bindings: Seq<MappingView>, r: Result<(), ConfigError>) -> bool {
    match r {
        Ok(()) => all_paired(bindings),
        Err(ConfigError::LengthMismatch { mapping, inputs, outputs }) => {
            &&& mapping < bindings.len()
            &&& all_paired(bindings.take(mapping as int))
            &&& !paired(bindings[mapping as int])
            &&& inputs == bindings[mapping as int].inputs.len()
            &&& outputs == bindings[mapping as int].outputs.len()
        },
    }
}

/// Checks that every binding pairs its universes one to one, and names the
/// first one that does not.
pub fn validate_bindings(bindings: &Vec<Mapping>) -> (r: Result<(), ConfigError>)
    ensures
        r is Ok <==> all_paired(bindings_view(bindings@)),
        validated(bindings_view(bindings@), r),
{
    let ghost views = bindings_view(bindings@);
    let mut i: usize = 0;
    while i < bindings.len()
        invariant
            i <= bindings.len(),
            views == bindings_view(bindings@),
            all_paired(views.take(i as int)),
        decreases bindings.len() - i,
    {
        let inputs: usize = bindings[i].input_universes.len();
        let outputs: usize = bindings[i].output_universes.len();
        if inputs != outputs {
            assert(!paired(views[i as int]));
            return Err(ConfigError::LengthMismatch { mapping: i, inputs, outputs });
        }
        assert(all_paired(views.take(i + 1))) by {
            assert forall|k: int| 0 <= k < i + 1 implies paired(
                #[trigger] views.take(i + 1)[k],
            ) by {
                if k < i {
                    assert(views.take(i as int)[k] == views[k]);
                }
            }
        }
        i += 1;
    }
    assert(views.take(i as int) =~= views);
    Ok(())
}

impl Config {
    /// Checks the whole configuration; see [`validate_bindings`].
    pub fn validate(&self) -> (r: Result<(), ConfigError>)
        ensures
            r is Ok <==> all_paired(self@),
            validated(self@, r),
    {
        validate_bindings(&self.mappings)
    }
}

} // verus!
