//! Names of nodes, coils and switch families.

use vstd::prelude::*;

verus! {

/// The mathematical value of a [`Handle`]: name, index and superscript.
pub type HandleView = (Seq<char>, Option<i8>, Option<u8>);

/// A name may hold neither `_` nor `^`: they separate the index and the
/// superscript in the text form.
pub open spec fn valid_name(name: Seq<char>) -> bool {
    !name.contains('_') && !name.contains('^')
}

/// The handle `G` of the ground rail.
pub open spec fn ground_view() -> HandleView {
    (seq!['G'], None, None)
}

/// A structured name: a text name, an optional signed index and an optional
/// superscript that tells physical plates of one logical coil apart.
#[derive(Debug, Clone, Eq, Hash)]
pub struct Handle {
    pub name: String,
    pub index: Option<i8>,
    pub sup: Option<u8>,
}

impl View for Handle {
    type V = HandleView;

    open spec fn view(&self) -> HandleView {
        (self.name@, self.index, self.sup)
    }
}

impl PartialEq for Handle {
    fn eq(&self, other: &Handle) -> (r: bool) {
        self.name == other.name && self.index == other.index && self.sup == other.sup
    }
}

impl vstd::std_specs::cmp::PartialEqSpecImpl for Handle {
    open spec fn obeys_eq_spec() -> bool {
        true
    }

    open spec fn eq_spec(&self, other: &Handle) -> bool {
        self@ == other@
    }
}

impl Handle {
    pub fn new(name: &str, index: Option<i8>, sup: Option<u8>) -> (r: Handle)
        requires
            valid_name(name@),
        ensures
            r@ == (name@, index, sup),
    {
        Handle { name: String::from_str(name), index, sup }
    }

    /// The ground handle `G`.
    pub fn ground() -> (r: Handle)
        ensures
            r@ == ground_view(),
    {
        proof {
            reveal_strlit("G");
        }
        Handle { name: String::from_str("G"), index: None, sup: None }
    }

    /// A copy of this handle.
    pub fn duplicate(&self) -> (r: Handle)
        ensures
            r@ == self@,
    {
        Handle { name: self.name.clone(), index: self.index, sup: self.sup }
    }
}

/// A family of indexed handles that share a name and a superscript.
#[derive(Debug, Clone)]
pub struct Bus {
    pub name: String,
    pub sup: Option<u8>,
}

impl Bus {
    pub fn new(name: &str, sup: Option<u8>) -> (r: Bus)
        requires
            valid_name(name@),
        ensures
            r.name@ == name@,
            r.sup == sup,
    {
        Bus { name: String::from_str(name), sup }
    }

    /// The spec value of the handle at `index` of this bus.
    pub open spec fn member(&self, index: int) -> HandleView {
        (self.name@, Some(index as i8), self.sup)
    }

    /// The handle at `index` of this bus.
    pub fn index(&self, index: i8) -> (r: Handle)
        ensures
            r@ == (self.name@, Some(index), self.sup),
    {
        Handle { name: self.name.clone(), index: Some(index), sup: self.sup }
    }

    /// Whether `h` belongs to this bus, whatever its index.
    pub fn holds(&self, h: &Handle) -> (r: bool)
        ensures
            r == (h.name@ == self.name@ && h.sup == self.sup),
    {
        self.name == h.name && self.sup == h.sup
    }
}

} // verus!
