//! A flat property of three texts and its printer.
use vstd::prelude::*;

verus! {

/// A property held as plain texts: its key, its separator and its value.
#[derive(Debug)]
pub struct Property {
    pub identifier: String,
    pub colon: String,
    pub value: String,
}

impl Property {
    pub fn new(identifier: &str, colon: &str, value: &str) -> (r: Property)
        ensures
            r.identifier@ == identifier@,
            r.colon@ == colon@,
            r.value@ == value@,
    {
        Property {
            identifier: String::from_str(identifier),
            colon: String::from_str(colon),
            value: String::from_str(value),
        }
    }

    /// The rendering of the property by `visitor`.
    pub fn accept(&self, visitor: &AstPrinter) -> (r: String)
        ensures
            r@ == self.identifier@ + self.colon@ + self.value@,
    {
        visitor.visit_property(self)
    }
}

/// Prints a property as its three texts side by side.
pub struct AstPrinter;

impl AstPrinter {
    pub fn print(&self, root: &Property) -> (r: String)
        ensures
            r@ == root.identifier@ + root.colon@ + root.value@,
    {
        root.accept(self)
    }

    pub fn visit_property(&self, property: &Property) -> (r: String)
        ensures
            r@ == property.identifier@ + property.colon@ + property.value@,
    {
        let mut buf = property.identifier.clone();
        buf.append(property.colon.as_str());
        buf.append(property.value.as_str());
        buf
    }
}

} // verus!
