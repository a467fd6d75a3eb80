//! Loading of a list of expectations from JSON text: an array of pairs,
//! each an offset and a string.

use vstd::prelude::*;
use vstd::string::StrSliceExecFns;
use vstd::utf8::encode_utf8;
use crate::residual::{Expectation, MalformedExpectations};

verus! {

/// `serde_json::Error`, the failure of reading JSON text. Nothing is known
/// of what a value of it holds.
#[verifier::external_type_specification]
#[verifier::external_body]
pub struct ExJsonError(serde_json::Error);

/// What `serde_json::from_str` reads from a text as a list of pairs of an
/// unsigned number and a string: the pairs, or `None` where it fails.
pub uninterp spec fn json_pairs(text: Seq<char>) -> Option<Seq<(usize, Seq<char>)>>;

/// Calls `serde_json::from_str` to read a `Vec<(usize, String)>`. The
/// contract gives the outcome a name and claims nothing else of it: the
/// call succeeds exactly where `json_pairs` of the text is `Some`, and then
/// returns those pairs.
#[verifier::external_body]
fn read_pairs(text: &str) -> (r: Result<Vec<(usize, String)>, serde_json::Error>)
    ensures
        r is Ok <==> json_pairs(text@) is Some,
        r matches Ok(pairs) ==> pairs.deep_view() == json_pairs(text@).unwrap(),
{
    serde_json::from_str(text)
}

/// `serde_json::Error::line`: the line at which the fault was detected.
/// Nothing is claimed of the number.
pub assume_specification[ serde_json::Error::line ](e: &serde_json::Error) -> (line: usize)
;

/// `serde_json::Error::column`: the column at which the fault was
/// detected. Nothing is claimed of the number.
pub assume_specification[ serde_json::Error::column ](e: &serde_json::Error) -> (column: usize)
;

/// The expectations as pairs of an offset and the expected bytes.
pub open spec fn expectation_pairs(list: Seq<Expectation>) -> Seq<(usize, Seq<u8>)> {
    list.map_values(|e: Expectation| (e.offset, e.text@))
}

/// The pairs with each string as the bytes of its UTF-8 encoding.
pub open spec fn encoded_pairs(pairs: Seq<(usize, Seq<char>)>) -> Seq<(usize, Seq<u8>)> {
    pairs.map_values(|p: (usize, Seq<char>)| (p.0, encode_utf8(p.1)))
}

/// Turns pairs of an offset and a string into expectations; the expected
/// bytes are the UTF-8 encoding of the string.
pub fn expectations_from_pairs(pairs: &Vec<(usize, String)>) -> (list: Vec<Expectation>)
    ensures
        expectation_pairs(list@) == encoded_pairs(pairs.deep_view()),
{
    let mut list: Vec<Expectation> = Vec::new();
    let mut i: usize = 0;
    while i < pairs.len()
        invariant
            i <= pairs.len(),
            list@.len() == i,
            forall|k: int|
                0 <= k < i ==> (#[trigger] list@[k]).offset == pairs@[k].0 && list@[k].text@
                    == encode_utf8(pairs@[k].1@),
        decreases pairs.len() - i,
    {
        let pair = &pairs[i];
        list.push(Expectation { offset: pair.0, text: pair.1.as_str().as_bytes_vec() });
        i += 1;
    }
    proof {
        assert(expectation_pairs(list@) =~= encoded_pairs(pairs.deep_view()));
    }
    list
}

/// Reads a list of expectations from JSON text. Succeeds exactly where the
/// text reads as a list of pairs of an unsigned number and a string; the
/// failure says where the fault was detected.
pub fn parse_expectations(text: &str) -> (r: Result<Vec<Expectation>, MalformedExpectations>)
    ensures
        r is Ok <==> json_pairs(text@) is Some,
        r matches Ok(list) ==> expectation_pairs(list@) == encoded_pairs(
            json_pairs(text@).unwrap(),
        ),
{
    match read_pairs(text) {
        Ok(pairs) => Ok(expectations_from_pairs(&pairs)),
        Err(e) => Err(MalformedExpectations { line: e.line(), column: e.column() }),
    }
}

} // verus!
