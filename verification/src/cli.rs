//! The arguments of the command line, once they are split into words.

use crate::mappings::UserMappings;
use crate::oid::{is_oid_hex, oid_of_hex, Oid};
use vstd::prelude::*;
use vstd::string::*;

verus! {

/// What the command line asks for.
#[derive(Debug)]
pub struct CliArguments {
    /// Where the submodule is mounted, from the root of the repository.
    pub submodule_dir: String,
    /// The pointers to replace, with what to take in their place.
    pub mappings: UserMappings,
    /// What to take in place of a pointer that is neither in the
    /// submodule's history nor among the mappings.
    pub default_mapping: Option<Oid>,
}

/// An argument that is no commit identifier.
#[derive(Clone, Copy, Debug, PartialEq, Eq)]
pub enum CliError {
    /// The value at this place among the values of `--mapping`.
    InvalidMapping(usize),
    /// The value of `--default-mapping`.
    InvalidDefaultMapping,
}

/// The number of values that form whole pairs.
pub open spec fn paired(values: Seq<String>) -> int {
    2 * (values.len() as int / 2)
}

/// Every value that is part of a pair is a commit identifier.
pub open spec fn all_well_formed(values: Seq<String>) -> bool {
    forall|i: int| 0 <= i < paired(values) ==> is_oid_hex(#[trigger] values[i]@)
}

/// `i` is the place of the first paired value that is no commit
/// identifier.
pub open spec fn is_first_malformed(values: Seq<String>, i: int) -> bool {
    &&& 0 <= i < paired(values)
    &&& !is_oid_hex(values[i]@)
    &&& forall|j: int| 0 <= j < i ==> is_oid_hex(#[trigger] values[j]@)
}

/// The substitutions that the first `pairs` pairs of `values` ask for: of
/// each pair, the first value is the pointer and the second what to take
/// in its place. A later pair wins over an earlier one for the same
/// pointer.
pub open spec fn mappings_of(values: Seq<String>, pairs: nat) -> Map<Oid, Oid>
    decreases pairs,
{
    if pairs == 0 {
        Map::empty()
    } else {
        mappings_of(values, (pairs - 1) as nat).insert(
            oid_of_hex(values[2 * pairs - 2]@),
            oid_of_hex(values[2 * pairs - 1]@),
        )
    }
}

/// The default that `text` asks for.
pub open spec fn default_of(text: Option<&str>) -> Option<Oid> {
    match text {
        Some(s) => Some(oid_of_hex(s@)),
        None => None,
    }
}

/// Reads the arguments: the mount point, the values of every `--mapping`
/// in the order given, and the value of `--default-mapping`.
///
/// The values of `--mapping` come in pairs; one left over at the end is
/// passed over. Every commit identifier has to be forty lower-case hex
/// digits. The first that is not ends the reading: the values of
/// `--mapping` are looked at first, in their order, then the default.
pub fn parse_cli_arguments(
    submodule_dir: &str,
    mapping_values: &Vec<String>,
    default_mapping: Option<&str>,
) -> (r: Result<CliArguments, CliError>)
    ensures
        match r {
            Ok(arguments) => {
                &&& all_well_formed(mapping_values@)
                &&& default_mapping matches Some(s) ==> is_oid_hex(s@)
                &&& arguments.submodule_dir@ == submodule_dir@
                &&& arguments.mappings@ == mappings_of(
                    mapping_values@,
                    (mapping_values@.len() / 2) as nat,
                )
                &&& arguments.default_mapping == default_of(default_mapping)
            },
            Err(CliError::InvalidMapping(i)) => is_first_malformed(mapping_values@, i as int),
            Err(CliError::InvalidDefaultMapping) => {
                &&& all_well_formed(mapping_values@)
                &&& default_mapping matches Some(s) && !is_oid_hex(s@)
            },
        },
{
    let pairs = mapping_values.len() / 2;
    let mut mappings = UserMappings::new();
    let mut k: usize = 0;
    while k < pairs
        invariant
            k <= pairs,
            pairs == mapping_values@.len() / 2,
            2 * pairs <= mapping_values@.len() <= usize::MAX,
            mappings@ == mappings_of(mapping_values@, k as nat),
            forall|j: int| 0 <= j < 2 * k ==> is_oid_hex(#[trigger] mapping_values@[j]@),
        decreases pairs - k,
    {
        let pointer = match Oid::from_hex(mapping_values[2 * k].as_str()) {
            Some(id) => id,
            None => {
                return Err(CliError::InvalidMapping(2 * k));
            },
        };
        let target = match Oid::from_hex(mapping_values[2 * k + 1].as_str()) {
            Some(id) => id,
            None => {
                return Err(CliError::InvalidMapping(2 * k + 1));
            },
        };
        mappings.set(pointer, target);
        k += 1;
    }
    let default_id = match default_mapping {
        None => None,
        Some(s) => match Oid::from_hex(s) {
            Some(id) => Some(id),
            None => {
                return Err(CliError::InvalidDefaultMapping);
            },
        },
    };
    Ok(
        CliArguments {
            submodule_dir: submodule_dir.to_owned(),
            mappings,
            default_mapping: default_id,
        },
    )
}

} // verus!
