//! `export-graphs`: render the event graph of each node of a mediator log.
use crate::text::{chars_of, digits_of, push_decimal, string_of};
use vstd::prelude::*;

verus! {

/// The file format of an exported graph.
#[derive(Copy, Clone, Debug, Eq, PartialEq, Structural)]
pub enum OutputFormat {
    Dot,
    Png,
    Pdf,
}

/// The log to read, the directory to write to, and the format to write.
#[derive(Debug)]
pub struct ExportGraphsArgs {
    pub log_path: String,
    pub output_dir: String,
    pub format: OutputFormat,
}

impl OutputFormat {
    /// The extension of a file in this format.
    pub fn extension(&self) -> (extension: &'static str)
        ensures
            extension@ == (match self {
                OutputFormat::Dot => "dot"@,
                OutputFormat::Png => "png"@,
                OutputFormat::Pdf => "pdf"@,
            }),
    {
        match self {
            OutputFormat::Dot => "dot",
            OutputFormat::Png => "png",
            OutputFormat::Pdf => "pdf",
        }
    }

    /// Is a file in this format drawn from a description, as every format
    /// but the description itself is?
    pub fn is_drawn(&self) -> (drawn: bool)
        ensures
            drawn == (*self != OutputFormat::Dot),
    {
        match self {
            OutputFormat::Dot => false,
            OutputFormat::Png => true,
            OutputFormat::Pdf => true,
        }
    }
}

/// The name of the file that holds the graph of the node `node_id`:
/// `node_`, the node's number, a dot and the extension.
pub fn node_file_name(node_id: u32, extension: &str) -> (name: String)
    ensures
        name@ == "node_"@ + digits_of(node_id as nat) + "."@ + extension@,
{
    let mut chars = chars_of("node_");
    push_decimal(node_id, &mut chars);
    let mut dot = chars_of(".");
    chars.append(&mut dot);
    let mut tail = chars_of(extension);
    chars.append(&mut tail);
    string_of(chars.as_slice())
}

} // verus!
