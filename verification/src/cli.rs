use vstd::prelude::*;

verus! {

/// How a report is written out.
#[derive(Clone, Copy, Debug, PartialEq, Eq, Structural)]
pub enum Format {
    Json,
    Html,
}

/// The options of one run.
pub struct Args {
    /// Path of the input file, plain or compressed.
    pub input: String,
    /// Name of the output format.
    pub format: String,
    /// Path of the output file; standard output where there is none.
    pub output: Option<String>,
}

/// The format that a format name selects: `html` for the page, and the
/// structured form for every other name.
pub open spec fn format_named(name: Seq<char>) -> Format {
    if name == "html"@ {
        Format::Html
    } else {
        Format::Json
    }
}

impl Args {
    /// The output format that these options select.
    pub fn output_format(&self) -> (f: Format)
        ensures
            f == format_named(self.format@),
    {
        let wanted: String = "html".to_owned();
        if self.format == wanted {
            Format::Html
        } else {
            Format::Json
        }
    }
}

} // verus!
