use vstd::prelude::*;

verus! {

broadcast use
    vstd::seq::axiom_seq_index_decreases,
    vstd::std_specs::vec::axiom_vec_decreases_to_view;

/// The mathematical model of one JSON value: a closed tagged union over the
/// seven syntactic categories.
///
/// A `Float` carries its source literal (a run of decimal digits containing a
/// decimal point) rather than a binary floating-point value: the choice of
/// the `Float` variant is purely syntactic, so the literal itself is the most
/// faithful description of the value.
pub enum JsonVal {
    Object(Seq<(JsonVal, JsonVal)>),
    Float(Seq<char>),
    Integer(i64),
    String(Seq<char>),
    Array(Seq<JsonVal>),
    Bool(bool),
    Null,
}

/// The in-memory representation of one JSON value.
///
/// An `Object` keeps its `(key, value)` pairs in insertion order; duplicate
/// keys are permitted and preserved, and a key is not restricted to the
/// `String` variant.  A `String` payload holds decoded characters, never raw
/// escape sequences.  A `Float` holds the numeric source literal it was
/// parsed from (digits with a decimal point), see [`JsonVal`].
#[derive(Debug, PartialEq)]
pub enum JSONObject {
    Object { children: Vec<(JSONObject, JSONObject)> },
    Float { value: String },
    Integer { value: i64 },
    String { value: String },
    Array { values: Vec<JSONObject> },
    Bool { value: bool },
    Null,
}

/// The models of a sequence of `(key, value)` pairs, in order.
pub open spec fn model_pairs(s: Seq<(JSONObject, JSONObject)>) -> Seq<(JsonVal, JsonVal)>
    decreases s,
{
    if s.len() == 0 {
        Seq::empty()
    } else {
        model_pairs(s.drop_last()).push((s.last().0.model(), s.last().1.model()))
    }
}

/// The models of a sequence of array elements, in order.
pub open spec fn model_elems(s: Seq<JSONObject>) -> Seq<JsonVal>
    decreases s,
{
    if s.len() == 0 {
        Seq::empty()
    } else {
        model_elems(s.drop_last()).push(s.last().model())
    }
}

impl JSONObject {
    /// The abstract value this tree stands for.
    pub open spec fn model(&self) -> JsonVal
        decreases self,
    {
        match self {
            JSONObject::Object { children } => JsonVal::Object(model_pairs(children@)),
            JSONObject::Float { value } => JsonVal::Float(value@),
            JSONObject::Integer { value } => JsonVal::Integer(*value),
            JSONObject::String { value } => JsonVal::String(value@),
            JSONObject::Array { values } => JsonVal::Array(model_elems(values@)),
            JSONObject::Bool { value } => JsonVal::Bool(*value),
            JSONObject::Null => JsonVal::Null,
        }
    }

    /// The canonical text of this tree: rendered from indent level zero, on
    /// its own line.
    pub fn render(&self) -> (r: String)
        ensures
            r@ == crate::renderer::sp_render(self.model(), 0, true),
    {
        crate::renderer::render_indent(self, 0, true)
    }
}

/// `model_pairs` maps the sequence elementwise.
pub proof fn lemma_model_pairs(s: Seq<(JSONObject, JSONObject)>)
    ensures
        model_pairs(s).len() == s.len(),
        forall|i: int|
            0 <= i < s.len() ==> model_pairs(s)[i] == (s[i].0.model(), s[i].1.model()),
    decreases s.len(),
{
    if s.len() > 0 {
        lemma_model_pairs(s.drop_last());
    }
}

/// `model_elems` maps the sequence elementwise.
pub proof fn lemma_model_elems(s: Seq<JSONObject>)
    ensures
        model_elems(s).len() == s.len(),
        forall|i: int| 0 <= i < s.len() ==> model_elems(s)[i] == s[i].model(),
    decreases s.len(),
{
    if s.len() > 0 {
        lemma_model_elems(s.drop_last());
    }
}

} // verus!
