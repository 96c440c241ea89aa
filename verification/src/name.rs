//! Qualified names and attributes, held as plain text.

use vstd::prelude::*;

verus! {

/// The name of an element or attribute: an optional prefix, a namespace and a
/// local name.
#[derive(Debug, PartialEq, Eq)]
pub struct QualName {
    pub prefix: Option<String>,
    pub ns: String,
    pub local: String,
}

/// What a [`QualName`] is in contracts: its three parts as character sequences.
pub struct QualNameView {
    pub prefix: Option<Seq<char>>,
    pub ns: Seq<char>,
    pub local: Seq<char>,
}

impl View for QualName {
    type V = QualNameView;

    open spec fn view(&self) -> QualNameView {
        QualNameView {
            prefix: match self.prefix {
                Some(p) => Some(p@),
                None => None,
            },
            ns: self.ns@,
            local: self.local@,
        }
    }
}

impl QualName {
    /// Builds a name from its three parts.
    pub fn new(prefix: Option<String>, ns: String, local: String) -> (name: QualName)
        ensures
            name.prefix == prefix,
            name.ns == ns,
            name.local == local,
    {
        QualName { prefix, ns, local }
    }

    /// Whether two names agree in prefix, namespace and local name.
    pub fn same_as(&self, other: &QualName) -> (same: bool)
        ensures
            same == (self@ == other@),
    {
        let prefixes_agree = match &self.prefix {
            Some(a) => match &other.prefix {
                Some(b) => *a == *b,
                None => false,
            },
            None => other.prefix.is_none(),
        };
        prefixes_agree && self.ns == other.ns && self.local == other.local
    }
}

impl Clone for QualName {
    fn clone(&self) -> (copy: QualName)
        ensures
            copy@ == self@,
    {
        QualName {
            prefix: match &self.prefix {
                Some(p) => Some(p.clone()),
                None => None,
            },
            ns: self.ns.clone(),
            local: self.local.clone(),
        }
    }
}

/// One attribute of an element.
#[derive(Debug, PartialEq, Eq)]
pub struct Attribute {
    pub name: QualName,
    pub value: String,
}

/// What an [`Attribute`] is in contracts.
pub struct AttributeView {
    pub name: QualNameView,
    pub value: Seq<char>,
}

impl View for Attribute {
    type V = AttributeView;

    open spec fn view(&self) -> AttributeView {
        AttributeView { name: self.name@, value: self.value@ }
    }
}

impl Clone for Attribute {
    fn clone(&self) -> (copy: Attribute)
        ensures
            copy@ == self@,
    {
        Attribute { name: self.name.clone(), value: self.value.clone() }
    }
}

/// The views of a run of attributes, in order.
pub open spec fn attrs_view(attrs: Seq<Attribute>) -> Seq<AttributeView> {
    Seq::new(attrs.len(), |i: int| attrs[i]@)
}

} // verus!
