//! The shape-inference engine: a recursive-descent consumer of the token
//! stream that builds one `Shape` for the whole document, unifying element
//! shapes inside arrays as it goes.

use crate::jsoninputerr::JsonInputErr;
use crate::jsonlex::{
    lemma_skip_ws_bounds, lemma_token_advances, next_token, run_has_dot, seq_has_dot,
    spec_skip_ws, spec_token_at, JsonToken, LexStep, SpecLexStep, SpecToken,
};
use crate::shape::{
    common_shape, fields_rep, find_key, keys_unique, lemma_common_shape_wf, lemma_key_index_first,
    lemma_rep_push, shape_view, shape_wf, spec_common, spec_key_index, Shape, SpecShape,
};
use vstd::prelude::*;

verus! {

/// What parsing one grammar production yields: a shape and the position
/// after it, or a failure.
pub enum SpecParse {
    Parsed(SpecShape, int),
    Failed(JsonInputErr),
}

/// The next cursor position after a step that reported `p_to`: the reported
/// position where it moved forward and stayed inside the input, and one
/// past `p_from` otherwise. Every step of a successful parse moves forward,
/// so the fallback never describes one; it keeps the descent well-founded.
pub open spec fn bump(p_from: int, p_to: int, len: int) -> int {
    if p_from < p_to <= len {
        p_to
    } else {
        p_from + 1
    }
}

/// The shape of the single JSON value beginning at `pos`: one token of
/// lookahead classifies it, and objects and arrays recurse.
pub open spec fn spec_value(s: Seq<u8>, pos: int) -> SpecParse
    decreases s.len() - pos, 0int,
{
    match spec_token_at(s, pos) {
        SpecLexStep::End => SpecParse::Failed(JsonInputErr::UnexpectedEndOfInput),
        SpecLexStep::Fail(e) => SpecParse::Failed(e),
        SpecLexStep::Tok(t, p2) => match t {
            SpecToken::True => SpecParse::Parsed(SpecShape::Bool, p2),
            SpecToken::False => SpecParse::Parsed(SpecShape::Bool, p2),
            SpecToken::Null => SpecParse::Parsed(
                SpecShape::Optional(Box::new(SpecShape::Bottom)),
                p2,
            ),
            SpecToken::Number(run) => SpecParse::Parsed(
                if seq_has_dot(run) {
                    SpecShape::Float
                } else {
                    SpecShape::Integer
                },
                p2,
            ),
            SpecToken::Text(_) => SpecParse::Parsed(SpecShape::Str, p2),
            SpecToken::ObjectStart => spec_object(s, bump(pos, p2, s.len() as int)),
            SpecToken::ArrayStart => spec_array(s, bump(pos, p2, s.len() as int)),
            SpecToken::ObjectEnd => SpecParse::Failed(JsonInputErr::InvalidJson),
            SpecToken::ArrayEnd => SpecParse::Failed(JsonInputErr::InvalidJson),
            SpecToken::Comma => SpecParse::Failed(JsonInputErr::InvalidJson),
            SpecToken::Colon => SpecParse::Failed(JsonInputErr::InvalidJson),
        },
    }
}

/// The shape of the object whose `{` was just consumed: an immediate `}`
/// yields the empty record, anything else the field list.
pub open spec fn spec_object(s: Seq<u8>, pos: int) -> SpecParse
    decreases s.len() - pos, 2int,
{
    match spec_token_at(s, pos) {
        SpecLexStep::Tok(SpecToken::ObjectEnd, p2) => SpecParse::Parsed(
            SpecShape::Record(Seq::empty()),
            p2,
        ),
        _ => spec_object_fields(s, pos, Seq::empty()),
    }
}

/// The remaining fields of an object: a string key (a repeated key is
/// malformed), a colon, a value, and then either the closing `}` or a comma
/// followed by more fields. A trailing comma before `}` is malformed.
pub open spec fn spec_object_fields(
    s: Seq<u8>,
    pos: int,
    acc: Seq<(Seq<char>, SpecShape)>,
) -> SpecParse
    decreases s.len() - pos, 1int,
{
    match spec_token_at(s, pos) {
        SpecLexStep::End => SpecParse::Failed(JsonInputErr::UnexpectedEndOfInput),
        SpecLexStep::Fail(e) => SpecParse::Failed(e),
        SpecLexStep::Tok(t, p2raw) => match t {
            SpecToken::Text(key) => {
                if spec_key_index(acc, key) >= 0 {
                    SpecParse::Failed(JsonInputErr::InvalidJson)
                } else {
                    let p2 = bump(pos, p2raw, s.len() as int);
                    match spec_token_at(s, p2) {
                        SpecLexStep::End => SpecParse::Failed(JsonInputErr::UnexpectedEndOfInput),
                        SpecLexStep::Fail(e) => SpecParse::Failed(e),
                        SpecLexStep::Tok(t2, p3raw) => {
                            if !(t2 is Colon) {
                                SpecParse::Failed(JsonInputErr::InvalidJson)
                            } else {
                                let p3 = bump(p2, p3raw, s.len() as int);
                                match spec_value(s, p3) {
                                    SpecParse::Failed(e) => SpecParse::Failed(e),
                                    SpecParse::Parsed(val, p4raw) => {
                                        let acc2 = acc.push((key, val));
                                        let p4 = bump(p3, p4raw, s.len() as int);
                                        match spec_token_at(s, p4) {
                                            SpecLexStep::End => SpecParse::Failed(
                                                JsonInputErr::UnexpectedEndOfInput,
                                            ),
                                            SpecLexStep::Fail(e) => SpecParse::Failed(e),
                                            SpecLexStep::Tok(SpecToken::ObjectEnd, p5) => {
                                                SpecParse::Parsed(SpecShape::Record(acc2), p5)
                                            },
                                            SpecLexStep::Tok(SpecToken::Comma, p5raw) => {
                                                spec_object_fields(
                                                    s,
                                                    bump(p4, p5raw, s.len() as int),
                                                    acc2,
                                                )
                                            },
                                            SpecLexStep::Tok(_, _) => SpecParse::Failed(
                                                JsonInputErr::InvalidJson,
                                            ),
                                        }
                                    },
                                }
                            }
                        },
                    }
                }
            },
            _ => SpecParse::Failed(JsonInputErr::InvalidJson),
        },
    }
}

/// The shape of the array whose `[` was just consumed: an immediate `]`
/// yields a list of `Bottom`, anything else the element list.
pub open spec fn spec_array(s: Seq<u8>, pos: int) -> SpecParse
    decreases s.len() - pos, 2int,
{
    match spec_token_at(s, pos) {
        SpecLexStep::Tok(SpecToken::ArrayEnd, p2) => SpecParse::Parsed(
            SpecShape::List(Box::new(SpecShape::Bottom)),
            p2,
        ),
        _ => spec_array_items(s, pos, SpecShape::Bottom),
    }
}

/// The remaining elements of an array: each element's shape is unified into
/// the accumulator, and then either the closing `]` or a comma followed by
/// more elements. A trailing comma before `]` is malformed.
pub open spec fn spec_array_items(s: Seq<u8>, pos: int, acc: SpecShape) -> SpecParse
    decreases s.len() - pos, 1int,
{
    match spec_value(s, pos) {
        SpecParse::Failed(e) => SpecParse::Failed(e),
        SpecParse::Parsed(v, p2raw) => {
            let acc2 = spec_common(acc, v);
            let p2 = bump(pos, p2raw, s.len() as int);
            match spec_token_at(s, p2) {
                SpecLexStep::End => SpecParse::Failed(JsonInputErr::UnexpectedEndOfInput),
                SpecLexStep::Fail(e) => SpecParse::Failed(e),
                SpecLexStep::Tok(SpecToken::ArrayEnd, p3) => SpecParse::Parsed(
                    SpecShape::List(Box::new(acc2)),
                    p3,
                ),
                SpecLexStep::Tok(SpecToken::Comma, p3raw) => spec_array_items(
                    s,
                    bump(p2, p3raw, s.len() as int),
                    acc2,
                ),
                SpecLexStep::Tok(_, _) => SpecParse::Failed(JsonInputErr::InvalidJson),
            }
        },
    }
}

/// A successfully parsed value ends strictly past where it began, and
/// within the input.
pub proof fn lemma_value_advances(s: Seq<u8>, pos: int)
    requires
        0 <= pos <= s.len(),
    ensures
        spec_value(s, pos) matches SpecParse::Parsed(_, p) ==> pos < p <= s.len(),
    decreases s.len() - pos, 0int,
{
    lemma_token_advances(s, pos);
    match spec_token_at(s, pos) {
        SpecLexStep::Tok(t, p2) => match t {
            SpecToken::ObjectStart => {
                lemma_object_advances(s, bump(pos, p2, s.len() as int));
            },
            SpecToken::ArrayStart => {
                lemma_array_advances(s, bump(pos, p2, s.len() as int));
            },
            _ => {},
        },
        _ => {},
    }
}

pub proof fn lemma_object_advances(s: Seq<u8>, pos: int)
    requires
        0 <= pos <= s.len(),
    ensures
        spec_object(s, pos) matches SpecParse::Parsed(_, p) ==> pos < p <= s.len(),
    decreases s.len() - pos, 2int,
{
    lemma_token_advances(s, pos);
    match spec_token_at(s, pos) {
        SpecLexStep::Tok(SpecToken::ObjectEnd, _) => {},
        _ => {
            lemma_fields_advances(s, pos, Seq::empty());
        },
    }
}

pub proof fn lemma_fields_advances(s: Seq<u8>, pos: int, acc: Seq<(Seq<char>, SpecShape)>)
    requires
        0 <= pos <= s.len(),
    ensures
        spec_object_fields(s, pos, acc) matches SpecParse::Parsed(_, p) ==> pos < p <= s.len(),
    decreases s.len() - pos, 1int,
{
    lemma_token_advances(s, pos);
    match spec_token_at(s, pos) {
        SpecLexStep::Tok(t, p2raw) => match t {
            SpecToken::Text(key) => {
                if spec_key_index(acc, key) < 0 {
                    let p2 = bump(pos, p2raw, s.len() as int);
                    lemma_token_advances(s, p2);
                    match spec_token_at(s, p2) {
                        SpecLexStep::Tok(t2, p3raw) => {
                            if t2 is Colon {
                                let p3 = bump(p2, p3raw, s.len() as int);
                                lemma_value_advances(s, p3);
                                match spec_value(s, p3) {
                                    SpecParse::Parsed(val, p4raw) => {
                                        let p4 = bump(p3, p4raw, s.len() as int);
                                        lemma_token_advances(s, p4);
                                        match spec_token_at(s, p4) {
                                            SpecLexStep::Tok(SpecToken::Comma, p5raw) => {
                                                lemma_fields_advances(
                                                    s,
                                                    bump(p4, p5raw, s.len() as int),
                                                    acc.push((key, val)),
                                                );
                                            },
                                            _ => {},
                                        }
                                    },
                                    _ => {},
                                }
                            }
                        },
                        _ => {},
                    }
                }
            },
            _ => {},
        },
        _ => {},
    }
}

pub proof fn lemma_array_advances(s: Seq<u8>, pos: int)
    requires
        0 <= pos <= s.len(),
    ensures
        spec_array(s, pos) matches SpecParse::Parsed(_, p) ==> pos < p <= s.len(),
    decreases s.len() - pos, 2int,
{
    lemma_token_advances(s, pos);
    match spec_token_at(s, pos) {
        SpecLexStep::Tok(SpecToken::ArrayEnd, _) => {},
        _ => {
            lemma_items_advances(s, pos, SpecShape::Bottom);
        },
    }
}

pub proof fn lemma_items_advances(s: Seq<u8>, pos: int, acc: SpecShape)
    requires
        0 <= pos <= s.len(),
    ensures
        spec_array_items(s, pos, acc) matches SpecParse::Parsed(_, p) ==> pos < p <= s.len(),
    decreases s.len() - pos, 1int,
{
    lemma_value_advances(s, pos);
    match spec_value(s, pos) {
        SpecParse::Parsed(v, p2raw) => {
            let p2 = bump(pos, p2raw, s.len() as int);
            lemma_token_advances(s, p2);
            match spec_token_at(s, p2) {
                SpecLexStep::Tok(SpecToken::Comma, p3raw) => {
                    lemma_items_advances(s, bump(p2, p3raw, s.len() as int), spec_common(acc, v));
                },
                _ => {},
            }
        },
        _ => {},
    }
}

/// Compares two u8 vectors byte by byte.
fn bytes_eq(a: &Vec<u8>, b: &Vec<u8>) -> (r: bool)
    ensures
        r == (a@ == b@),
{
    if a.len() != b.len() {
        return false;
    }
    let mut i: usize = 0;
    while i < a.len()
        invariant
            i <= a@.len(),
            a@.len() == b@.len(),
            forall|j: int| 0 <= j < i ==> a@[j] == b@[j],
        decreases a@.len() - i,
    {
        if a[i] != b[i] {
            return false;
        }
        i += 1;
    }
    proof {
        assert(a@ =~= b@);
    }
    true
}

/// Decides whether two tokens are the same, contents included.
fn token_eq(a: &JsonToken, b: &JsonToken) -> (r: bool)
    ensures
        r == (a@ == b@),
{
    match (a, b) {
        (JsonToken::ObjectStart, JsonToken::ObjectStart) => {
            return true;
        },
        (JsonToken::ObjectEnd, JsonToken::ObjectEnd) => {
            return true;
        },
        (JsonToken::ArrayStart, JsonToken::ArrayStart) => {
            return true;
        },
        (JsonToken::ArrayEnd, JsonToken::ArrayEnd) => {
            return true;
        },
        (JsonToken::Colon, JsonToken::Colon) => {
            return true;
        },
        (JsonToken::Comma, JsonToken::Comma) => {
            return true;
        },
        (JsonToken::Text(x), JsonToken::Text(y)) => {
            proof {
                assert(*a == JsonToken::Text(*x));
                assert(*b == JsonToken::Text(*y));
            }
            return *x == *y;
        },
        (JsonToken::Number(x), JsonToken::Number(y)) => {
            proof {
                assert(*a == JsonToken::Number(*x));
                assert(*b == JsonToken::Number(*y));
            }
            return bytes_eq(x, y);
        },
        (JsonToken::True, JsonToken::True) => {
            return true;
        },
        (JsonToken::False, JsonToken::False) => {
            return true;
        },
        (JsonToken::Null, JsonToken::Null) => {
            return true;
        },
        _ => {
            return false;
        },
    }
}

/// A type that can be inferred from one complete JSON document.
pub trait FromJson where Self: Sized {
    /// Reads one complete JSON document from the given bytes; anything but
    /// whitespace after the document is malformed.
    fn from_json(json: &[u8]) -> Result<Self, JsonInputErr>;
}

impl FromJson for Shape {
    fn from_json(json: &[u8]) -> (r: Result<Shape, JsonInputErr>)
        ensures
            match spec_value(json@, 0) {
                SpecParse::Parsed(sh, p) => if spec_skip_ws(json@, p) == json@.len() {
                    r matches Ok(v) && v@ == sh
                } else {
                    r matches Err(e2) && e2 == JsonInputErr::InvalidJson
                },
                SpecParse::Failed(e) => r matches Err(e2) && e2 == e,
            },
            r matches Ok(v) ==> shape_wf(v@),
    {
        proof {
            lemma_value_wf(json@, 0);
            lemma_value_advances(json@, 0);
        }
        let mut inference = Inference::new(json);
        let shape = match inference.infer_value() {
            Ok(shape) => shape,
            Err(e) => {
                return Err(e);
            },
        };
        proof {
            lemma_skip_ws_bounds(json@, inference.pos as int);
        }
        let (step, _after) = next_token(inference.bytes, inference.pos);
        match step {
            LexStep::End => Ok(shape),
            _ => Err(JsonInputErr::InvalidJson),
        }
    }
}

/// The cursor of one inference run: the input bytes and the position of
/// the next unread byte. Peeking is a token request that leaves the
/// position alone, so one token of lookahead costs nothing to give back.
pub struct Inference<'a> {
    /// The whole input document.
    pub bytes: &'a [u8],
    /// The position of the next unread byte.
    pub pos: usize,
}

impl<'a> Inference<'a> {
    /// A fresh cursor at the start of the input.
    pub fn new(source: &'a [u8]) -> (r: Self)
        ensures
            r.bytes@ == source@,
            r.pos == 0,
    {
        Inference { bytes: source, pos: 0 }
    }

    /// Reads the single value that begins at the cursor and infers its
    /// shape; one token of lookahead classifies it.
    pub fn infer_value(&mut self) -> (r: Result<Shape, JsonInputErr>)
        requires
            old(self).pos <= old(self).bytes@.len(),
        ensures
            final(self).bytes == old(self).bytes,
            final(self).pos <= final(self).bytes@.len(),
            match spec_value(old(self).bytes@, old(self).pos as int) {
                SpecParse::Parsed(sh, p) => r matches Ok(v) && v@ == sh && final(self).pos as int
                    == p,
                SpecParse::Failed(e) => r matches Err(e2) && e2 == e,
            },
        decreases self.bytes@.len() - self.pos, 0int,
    {
        proof {
            lemma_token_advances(self.bytes@, self.pos as int);
        }
        let ghost pos0 = self.pos as int;
        let (step, p) = next_token(self.bytes, self.pos);
        match step {
            LexStep::End => {
                return Err(JsonInputErr::UnexpectedEndOfInput);
            },
            LexStep::Fail(e) => {
                return Err(e);
            },
            LexStep::Tok(tok) => {
                self.pos = p;
                match tok {
                    JsonToken::True => {
                        return Ok(Shape::Bool);
                    },
                    JsonToken::False => {
                        return Ok(Shape::Bool);
                    },
                    JsonToken::Null => {
                        proof {
                            assert(shape_view(Shape::Bottom) == SpecShape::Bottom);
                        }
                        return Ok(Shape::Optional(Box::new(Shape::Bottom)));
                    },
                    JsonToken::Number(run) => {
                        if run_has_dot(&run) {
                            return Ok(Shape::Float);
                        } else {
                            return Ok(Shape::Integer);
                        }
                    },
                    JsonToken::Text(_) => {
                        return Ok(Shape::Str);
                    },
                    JsonToken::ObjectStart => {
                        return self.infer_object();
                    },
                    JsonToken::ArrayStart => {
                        return self.infer_array();
                    },
                    JsonToken::ObjectEnd => {
                        return Err(JsonInputErr::InvalidJson);
                    },
                    JsonToken::ArrayEnd => {
                        return Err(JsonInputErr::InvalidJson);
                    },
                    JsonToken::Comma => {
                        return Err(JsonInputErr::InvalidJson);
                    },
                    JsonToken::Colon => {
                        return Err(JsonInputErr::InvalidJson);
                    },
                }
            },
        }
    }

    /// Reads the fields of an object whose `{` was already consumed:
    /// string keys (each at most once), colons, values, and the commas
    /// between fields, up to the closing `}`.
    #[verifier::loop_isolation(false)]
    #[verifier::rlimit(60)]
    pub fn infer_object(&mut self) -> (r: Result<Shape, JsonInputErr>)
        requires
            old(self).pos <= old(self).bytes@.len(),
        ensures
            final(self).bytes == old(self).bytes,
            final(self).pos <= final(self).bytes@.len(),
            match spec_object(old(self).bytes@, old(self).pos as int) {
                SpecParse::Parsed(sh, p) => r matches Ok(v) && v@ == sh && final(self).pos as int
                    == p,
                SpecParse::Failed(e) => r matches Err(e2) && e2 == e,
            },
        decreases self.bytes@.len() - self.pos, 2int,
    {
        let ghost s = self.bytes@;
        let ghost pos0 = self.pos as int;
        proof {
            lemma_token_advances(s, pos0);
        }
        let (step, p) = next_token(self.bytes, self.pos);
        match step {
            LexStep::Tok(JsonToken::ObjectEnd) => {
                self.pos = p;
                let fields: Vec<(String, Shape)> = Vec::new();
                proof {
                    assert(fields_rep(fields@) =~= Seq::<(Seq<char>, SpecShape)>::empty());
                }
                return Ok(Shape::Record(fields));
            },
            _ => {},
        }
        let mut fields: Vec<(String, Shape)> = Vec::new();
        proof {
            assert(fields_rep(fields@) =~= Seq::<(Seq<char>, SpecShape)>::empty());
        }
        loop
            invariant
                self.bytes == old(self).bytes,
                pos0 <= self.pos as int <= s.len(),
                spec_object_fields(s, pos0, Seq::empty()) == spec_object_fields(
                    s,
                    self.pos as int,
                    fields_rep(fields@),
                ),
            decreases s.len() - self.pos,
        {
            let ghost cur0 = self.pos as int;
            let ghost acc = fields_rep(fields@);
            proof {
                lemma_token_advances(s, cur0);
            }
            let (step, p) = next_token(self.bytes, self.pos);
            let tok = match step {
                LexStep::End => {
                    return Err(JsonInputErr::UnexpectedEndOfInput);
                },
                LexStep::Fail(e) => {
                    return Err(e);
                },
                LexStep::Tok(t) => t,
            };
            let key = match tok {
                JsonToken::Text(k) => k,
                _ => {
                    return Err(JsonInputErr::InvalidJson);
                },
            };
            match find_key(&fields, &key) {
                Some(_) => {
                    return Err(JsonInputErr::InvalidJson);
                },
                None => {},
            }
            self.pos = p;
            let ghost p2 = self.pos as int;
            proof {
                lemma_token_advances(s, p2);
            }
            match self.expect_token(JsonToken::Colon) {
                Ok(()) => {},
                Err(e) => {
                    return Err(e);
                },
            }
            let ghost p3 = self.pos as int;
            proof {
                lemma_value_advances(s, p3);
            }
            let value = match self.infer_value() {
                Ok(v) => v,
                Err(e) => {
                    return Err(e);
                },
            };
            let ghost p4 = self.pos as int;
            let ghost keyv = key@;
            let ghost valv = value@;
            fields.push((key, value));
            proof {
                lemma_rep_push(fields@.drop_last(), (fields@.last().0, fields@.last().1));
                assert(fields@.drop_last().push(fields@.last()) =~= fields@);
                assert(fields_rep(fields@) == acc.push((keyv, valv)));
                lemma_token_advances(s, p4);
            }
            let (step2, p5) = next_token(self.bytes, self.pos);
            match step2 {
                LexStep::Tok(JsonToken::ObjectEnd) => {
                    self.pos = p5;
                    return Ok(Shape::Record(fields));
                },
                _ => {},
            }
            match self.expect_token(JsonToken::Comma) {
                Ok(()) => {},
                Err(e) => {
                    return Err(e);
                },
            }
        }
    }

    /// Consumes the next token and demands that it be the expected one.
    pub fn expect_token(&mut self, expected_token: JsonToken) -> (r: Result<(), JsonInputErr>)
        requires
            old(self).pos <= old(self).bytes@.len(),
        ensures
            final(self).bytes == old(self).bytes,
            final(self).pos <= final(self).bytes@.len(),
            match spec_token_at(old(self).bytes@, old(self).pos as int) {
                SpecLexStep::End => r matches Err(e2) && e2 == JsonInputErr::UnexpectedEndOfInput
                    && final(self).pos == old(self).pos,
                SpecLexStep::Fail(e) => r matches Err(e2) && e2 == e && final(self).pos == old(
                    self,
                ).pos,
                SpecLexStep::Tok(t, p2) => if t == expected_token@ {
                    r matches Ok(u) && final(self).pos as int == p2
                } else {
                    r matches Err(e2) && e2 == JsonInputErr::InvalidJson && final(self).pos == old(
                        self,
                    ).pos
                },
            },
    {
        proof {
            lemma_token_advances(self.bytes@, self.pos as int);
        }
        let (step, p) = next_token(self.bytes, self.pos);
        match step {
            LexStep::End => Err(JsonInputErr::UnexpectedEndOfInput),
            LexStep::Fail(e) => Err(e),
            LexStep::Tok(tok) => {
                if token_eq(&tok, &expected_token) {
                    self.pos = p;
                    Ok(())
                } else {
                    Err(JsonInputErr::InvalidJson)
                }
            },
        }
    }

    /// Reads the elements of an array whose `[` was already consumed,
    /// unifying their shapes into one element shape, up to the closing
    /// `]`.
    #[verifier::loop_isolation(false)]
    #[verifier::rlimit(60)]
    pub fn infer_array(&mut self) -> (r: Result<Shape, JsonInputErr>)
        requires
            old(self).pos <= old(self).bytes@.len(),
        ensures
            final(self).bytes == old(self).bytes,
            final(self).pos <= final(self).bytes@.len(),
            match spec_array(old(self).bytes@, old(self).pos as int) {
                SpecParse::Parsed(sh, p) => r matches Ok(v) && v@ == sh && final(self).pos as int
                    == p,
                SpecParse::Failed(e) => r matches Err(e2) && e2 == e,
            },
        decreases self.bytes@.len() - self.pos, 2int,
    {
        let ghost s = self.bytes@;
        let ghost pos0 = self.pos as int;
        proof {
            lemma_token_advances(s, pos0);
        }
        let (step, p) = next_token(self.bytes, self.pos);
        match step {
            LexStep::Tok(JsonToken::ArrayEnd) => {
                self.pos = p;
                return Ok(Shape::List(Box::new(Shape::Bottom)));
            },
            _ => {},
        }
        let mut inner = Shape::Bottom;
        loop
            invariant
                self.bytes == old(self).bytes,
                pos0 <= self.pos as int <= s.len(),
                spec_array_items(s, pos0, SpecShape::Bottom) == spec_array_items(
                    s,
                    self.pos as int,
                    inner@,
                ),
            decreases s.len() - self.pos,
        {
            let ghost cur0 = self.pos as int;
            let ghost acc = inner@;
            proof {
                lemma_value_advances(s, cur0);
            }
            let value = match self.infer_value() {
                Ok(v) => v,
                Err(e) => {
                    return Err(e);
                },
            };
            inner = common_shape(inner, value);
            let ghost p2 = self.pos as int;
            proof {
                lemma_token_advances(s, p2);
            }
            let (step2, p3) = next_token(self.bytes, self.pos);
            match step2 {
                LexStep::Tok(JsonToken::ArrayEnd) => {
                    self.pos = p3;
                    return Ok(Shape::List(Box::new(inner)));
                },
                _ => {},
            }
            match self.expect_token(JsonToken::Comma) {
                Ok(()) => {},
                Err(e) => {
                    return Err(e);
                },
            }
        }
    }
}

/// Every shape that inference yields satisfies the data model's
/// invariants: record keys are unique and `Optional` never nests.
pub proof fn lemma_value_wf(s: Seq<u8>, pos: int)
    requires
        0 <= pos <= s.len(),
    ensures
        spec_value(s, pos) matches SpecParse::Parsed(sh, _) ==> shape_wf(sh),
    decreases s.len() - pos, 0int,
{
    lemma_token_advances(s, pos);
    assert(shape_wf(SpecShape::Bottom));
    match spec_token_at(s, pos) {
        SpecLexStep::Tok(t, p2) => match t {
            SpecToken::ObjectStart => {
                lemma_object_wf(s, bump(pos, p2, s.len() as int));
            },
            SpecToken::ArrayStart => {
                lemma_array_wf(s, bump(pos, p2, s.len() as int));
            },
            _ => {},
        },
        _ => {},
    }
}

proof fn lemma_object_wf(s: Seq<u8>, pos: int)
    requires
        0 <= pos <= s.len(),
    ensures
        spec_object(s, pos) matches SpecParse::Parsed(sh, _) ==> shape_wf(sh),
    decreases s.len() - pos, 2int,
{
    match spec_token_at(s, pos) {
        SpecLexStep::Tok(SpecToken::ObjectEnd, _) => {},
        _ => {
            lemma_fields_wf(s, pos, Seq::empty());
        },
    }
}

proof fn lemma_fields_wf(s: Seq<u8>, pos: int, acc: Seq<(Seq<char>, SpecShape)>)
    requires
        0 <= pos <= s.len(),
        keys_unique(acc),
        forall|i: int| 0 <= i < acc.len() ==> shape_wf(#[trigger] acc[i].1),
    ensures
        spec_object_fields(s, pos, acc) matches SpecParse::Parsed(sh, _) ==> shape_wf(sh),
    decreases s.len() - pos, 1int,
{
    lemma_token_advances(s, pos);
    match spec_token_at(s, pos) {
        SpecLexStep::Tok(t, p2raw) => match t {
            SpecToken::Text(key) => {
                if spec_key_index(acc, key) < 0 {
                    lemma_key_index_first(acc, key);
                    let p2 = bump(pos, p2raw, s.len() as int);
                    lemma_token_advances(s, p2);
                    match spec_token_at(s, p2) {
                        SpecLexStep::Tok(t2, p3raw) => {
                            if t2 is Colon {
                                let p3 = bump(p2, p3raw, s.len() as int);
                                lemma_value_advances(s, p3);
                                lemma_value_wf(s, p3);
                                match spec_value(s, p3) {
                                    SpecParse::Parsed(val, p4raw) => {
                                        let acc2 = acc.push((key, val));
                                        assert(keys_unique(acc2)) by {
                                            assert forall|x: int, y: int|
                                                0 <= x < y < acc2.len() implies acc2[x].0
                                                != acc2[y].0 by {
                                                if y == acc2.len() - 1 {
                                                    assert(acc2[x] == acc[x]);
                                                    assert(acc[x].0 != key);
                                                } else {
                                                    assert(acc2[x] == acc[x]);
                                                    assert(acc2[y] == acc[y]);
                                                }
                                            }
                                        }
                                        assert(forall|i: int|
                                            0 <= i < acc2.len() ==> shape_wf(
                                                #[trigger] acc2[i].1,
                                            )) by {
                                            assert(forall|i: int|
                                                0 <= i < acc.len() ==> acc2[i] == #[trigger] acc[
                                                i]);
                                            assert(acc2[acc2.len() - 1].1 == val);
                                        }
                                        let p4 = bump(p3, p4raw, s.len() as int);
                                        lemma_token_advances(s, p4);
                                        match spec_token_at(s, p4) {
                                            SpecLexStep::Tok(SpecToken::Comma, p5raw) => {
                                                lemma_fields_wf(
                                                    s,
                                                    bump(p4, p5raw, s.len() as int),
                                                    acc2,
                                                );
                                            },
                                            _ => {},
                                        }
                                    },
                                    _ => {},
                                }
                            }
                        },
                        _ => {},
                    }
                }
            },
            _ => {},
        },
        _ => {},
    }
}

proof fn lemma_array_wf(s: Seq<u8>, pos: int)
    requires
        0 <= pos <= s.len(),
    ensures
        spec_array(s, pos) matches SpecParse::Parsed(sh, _) ==> shape_wf(sh),
    decreases s.len() - pos, 2int,
{
    assert(shape_wf(SpecShape::Bottom));
    match spec_token_at(s, pos) {
        SpecLexStep::Tok(SpecToken::ArrayEnd, _) => {},
        _ => {
            lemma_items_wf(s, pos, SpecShape::Bottom);
        },
    }
}

proof fn lemma_items_wf(s: Seq<u8>, pos: int, acc: SpecShape)
    requires
        0 <= pos <= s.len(),
        shape_wf(acc),
    ensures
        spec_array_items(s, pos, acc) matches SpecParse::Parsed(sh, _) ==> shape_wf(sh),
    decreases s.len() - pos, 1int,
{
    lemma_value_advances(s, pos);
    lemma_value_wf(s, pos);
    match spec_value(s, pos) {
        SpecParse::Parsed(v, p2raw) => {
            lemma_common_shape_wf(acc, v);
            let p2 = bump(pos, p2raw, s.len() as int);
            lemma_token_advances(s, p2);
            match spec_token_at(s, p2) {
                SpecLexStep::Tok(SpecToken::Comma, p3raw) => {
                    lemma_items_wf(s, bump(p2, p3raw, s.len() as int), spec_common(acc, v));
                },
                _ => {},
            }
        },
        _ => {},
    }
}

} // verus!
