//! Output formats understood by the command line front end.

use vstd::prelude::*;
use vstd::string::StringExecFns;

verus! {

/// The image formats a logo can be written in.
#[derive(Copy, Clone, Debug, PartialEq, Eq, Structural)]
pub enum Format {
    Svg,
    Png,
}

impl Format {
    /// The file extension of the format, without the dot.
    pub open spec fn spec_extension(self) -> Seq<char> {
        match self {
            Format::Svg => "svg"@,
            Format::Png => "png"@,
        }
    }

    /// The name of the format, which is its file extension.
    pub fn to_string(&self) -> (name: String)
        ensures
            name@ == self.spec_extension(),
    {
        match self {
            Format::Svg => String::from_str("svg"),
            Format::Png => String::from_str("png"),
        }
    }

    /// Returns the file extension that belongs to the format.
    pub fn extension(&self) -> (ext: &'static str)
        ensures
            ext@ == self.spec_extension(),
    {
        match self {
            Format::Svg => "svg",
            Format::Png => "png",
        }
    }
}

} // verus!
