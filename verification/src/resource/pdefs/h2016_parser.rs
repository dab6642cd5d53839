//! The partition definitions of Hitman 2016.

use crate::resource::pdefs::{
    definitions_of,
    infos_view,
    parse_definitions,
    Definitions,
    Dialect,
    PackageDefinitionError,
    PackageDefinitionParser,
    PartitionInfo,
};
use vstd::prelude::*;

verus! {

pub struct H2016Parser;

impl PackageDefinitionParser for H2016Parser {
    fn parse(data: &[u8]) -> (r: Result<Vec<PartitionInfo>, PackageDefinitionError>)
        ensures
            match definitions_of(Dialect::H2016, data@) {
                Definitions::Partitions(partitions) => r matches Ok(infos) && infos_view(infos@)
                    == partitions,
                Definitions::Undecryptable => r matches Err(
                    PackageDefinitionError::DecryptionError(_),
                ),
                Definitions::NoText => r matches Err(PackageDefinitionError::TextEncodingError),
                Definitions::Unexpected => r matches Err(
                    PackageDefinitionError::UnexpectedFormat(_),
                ),
            },
    {
        parse_definitions(Dialect::H2016, data)
    }
}

} // verus!
