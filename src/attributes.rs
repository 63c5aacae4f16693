//! The recognised formatting attributes of an operation, resolved into typed fields.
use vstd::prelude::*;

verus! {

/// The attribute set of one operation.
///
/// Inline keys: `background`, `bold`, `code`, `color`, `font`, `italic`, `link`,
/// `size`, `strike`, `underline`. Block keys: `align`, `code-block`, `header`,
/// `indent`, `list`. Embedded objects read `alt`. A flag is set when its key is
/// present, whatever its value; a string-valued key that held no string holds
/// the empty string.
#[derive(Debug)]
pub struct Attributes {
    pub align: Option<String>,
    pub alt: Option<String>,
    pub background: Option<String>,
    pub bold: bool,
    pub code: bool,
    pub code_block: bool,
    pub color: Option<String>,
    pub font: Option<String>,
    pub header: Option<u64>,
    pub indent: u64,
    pub italic: bool,
    pub link: Option<String>,
    pub list: Option<String>,
    pub size: Option<String>,
    pub strike: bool,
    pub underline: bool,
}

impl Attributes {
    /// An attribute set with no key present.
    pub open spec fn is_empty_spec(&self) -> bool {
        &&& self.align is None
        &&& self.alt is None
        &&& self.background is None
        &&& !self.bold
        &&& !self.code
        &&& !self.code_block
        &&& self.color is None
        &&& self.font is None
        &&& self.header is None
        &&& self.indent == 0
        &&& !self.italic
        &&& self.link is None
        &&& self.list is None
        &&& self.size is None
        &&& !self.strike
        &&& !self.underline
    }

    /// An attribute set with no key present.
    pub fn new() -> (r: Attributes)
        ensures
            r.is_empty_spec(),
    {
        Attributes {
            align: None,
            alt: None,
            background: None,
            bold: false,
            code: false,
            code_block: false,
            color: None,
            font: None,
            header: None,
            indent: 0,
            italic: false,
            link: None,
            list: None,
            size: None,
            strike: false,
            underline: false,
        }
    }
}

} // verus!
