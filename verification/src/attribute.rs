//! HTML attributes: plain name/value pairs of strings, attached to elements.

use vstd::prelude::*;

verus! {

/// Mathematical model of an [`Attribute`]: both strings as character sequences.
pub struct AttributeView {
    pub name: Seq<char>,
    pub value: Seq<char>,
}

/// One attribute of an element, e.g. `name="value"`.
#[derive(Debug)]
pub struct Attribute {
    pub name: String,
    pub value: String,
}

impl View for Attribute {
    type V = AttributeView;

    open spec fn view(&self) -> AttributeView {
        AttributeView { name: self.name@, value: self.value@ }
    }
}

impl DeepView for Attribute {
    type V = AttributeView;

    open spec fn deep_view(&self) -> AttributeView {
        self@
    }
}

impl Attribute {
    pub fn new(name: String, value: String) -> (r: Attribute)
        ensures
            r@.name == name@,
            r@.value == value@,
    {
        Attribute { name, value }
    }

    pub fn name(&self) -> (r: &str)
        ensures
            r@ == self@.name,
    {
        self.name.as_str()
    }

    pub fn value(&self) -> (r: &str)
        ensures
            r@ == self@.value,
    {
        self.value.as_str()
    }
}

impl Clone for Attribute {
    fn clone(&self) -> (r: Self)
        ensures
            r@ == self@,
    {
        Attribute { name: self.name.clone(), value: self.value.clone() }
    }
}

} // verus!
