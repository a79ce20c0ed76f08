//! Infers a structural type description (a "shape") from one sample of
//! JSON data and renders it as a human-readable schema: a tokenizer, a
//! recursive-descent shape-inference engine, a unification lattice over
//! shapes, and a renderer.

use vstd::prelude::*;

pub mod jsoninfer;
pub mod jsoninputerr;
pub mod jsonlex;
pub mod shape;

use crate::jsoninfer::{spec_value, FromJson, SpecParse};
use crate::jsoninputerr::JsonInputErr;
use crate::jsonlex::spec_skip_ws;
use crate::shape::{shape_to_string, spec_render, Shape};

verus! {

/// Reads one complete JSON document from the given bytes and renders the
/// inferred shape as an indented schema, or says why the input was
/// rejected. Anything but whitespace after the document is malformed.
pub fn typegen(input: &[u8]) -> (r: Result<String, JsonInputErr>)
    ensures
        match spec_value(input@, 0) {
            SpecParse::Parsed(sh, p) => if spec_skip_ws(input@, p) == input@.len() {
                r matches Ok(text) && text@ == spec_render(sh, 0)
            } else {
                r matches Err(e2) && e2 == JsonInputErr::InvalidJson
            },
            SpecParse::Failed(e) => r matches Err(e2) && e2 == e,
        },
{
    match Shape::from_json(input) {
        Ok(shape) => Ok(shape_to_string(&shape)),
        Err(e) => Err(e),
    }
}

} // verus!
