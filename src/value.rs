//! Field values of a model.
use vstd::prelude::*;
use crate::ordered_map::ExactView;

verus! {

/// A JSON value, held as its compact text with object keys in sorted order.
/// In that form two values are equal exactly when their texts are.
#[derive(Debug)]
pub struct Value {
    text: String,
}

impl View for Value {
    type V = Seq<char>;

    closed spec fn view(&self) -> Seq<char> {
        self.text@
    }
}

impl Value {
    /// The value whose compact JSON text is `text`.
    pub fn from_json_text(text: String) -> (r: Value)
        ensures
            r@ == text@,
    {
        Value { text }
    }

    /// The compact JSON text of this value.
    pub fn as_json_text(&self) -> (r: &String)
        ensures
            r@ == self@,
    {
        &self.text
    }
}

impl ExactView for Value {
    fn view_eq(&self, other: &Self) -> (r: bool) {
        self.text == other.text
    }

    fn copy_exact(&self) -> (r: Self) {
        Value { text: self.text.clone() }
    }
}

impl Clone for Value {
    fn clone(&self) -> (r: Self)
        ensures
            r@ == self@,
    {
        self.copy_exact()
    }
}

impl PartialEq for Value {
    fn eq(&self, other: &Self) -> (r: bool) {
        self.text == other.text
    }
}

impl vstd::std_specs::cmp::PartialEqSpecImpl for Value {
    open spec fn obeys_eq_spec() -> bool {
        true
    }

    open spec fn eq_spec(&self, other: &Self) -> bool {
        self@ == other@
    }
}

} // verus!
