//! Why the metadata of a file could not be resolved.

use vstd::prelude::*;

verus! {

/// The ways in which resolving the metadata of one file fails. Such a file
/// is left out of the plan and reported; the other files are still planned.
#[derive(Clone, Copy, Debug, PartialEq, Eq, Structural)]
pub enum MetadataError {
    /// The metadata tool did not run to success on the file.
    ToolFailed,
    /// The output of the tool holds no field for the capture date.
    MissingDate,
    /// The output of the tool holds no field for the artist.
    MissingArtist,
    /// The capture date is not a date and time in the expected format.
    InvalidDate,
}

impl MetadataError {
    /// The text of the error, to be shown with the offending file.
    pub fn message(&self) -> (text: String)
        ensures
            text@ == match self {
                MetadataError::ToolFailed => "Failed to read metadata"@,
                MetadataError::MissingDate => "Failed to parse date"@,
                MetadataError::MissingArtist => "Failed to parse artist"@,
                MetadataError::InvalidDate => "Invalid capture date"@,
            },
    {
        match self {
            MetadataError::ToolFailed => "Failed to read metadata".to_owned(),
            MetadataError::MissingDate => "Failed to parse date".to_owned(),
            MetadataError::MissingArtist => "Failed to parse artist".to_owned(),
            MetadataError::InvalidDate => "Invalid capture date".to_owned(),
        }
    }
}

} // verus!
