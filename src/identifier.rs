use vstd::prelude::*;

verus! {

/// A principal: a logical name and a numeric id.
#[derive(Debug, Hash, Clone)]
pub struct Identifier {
    name: String,
    id: u64,
}

impl Identifier {
    pub closed spec fn spec_name(&self) -> Seq<char> {
        self.name@
    }

    pub closed spec fn spec_id(&self) -> u64 {
        self.id
    }

    /// The identifier of a process that names itself by nothing but its
    /// process id.
    pub fn new(process_id: u32) -> (r: Self)
        ensures
            r.spec_name() == Seq::<char>::empty(),
            r.spec_id() == process_id as u64,
    {
        Identifier { name: String::new(), id: process_id as u64 }
    }

    pub fn from_given(name: &str, id: u64) -> (r: Self)
        ensures
            r.spec_name() == name@,
            r.spec_id() == id,
    {
        Identifier { name: name.to_owned(), id: id }
    }

    pub fn get_name(&self) -> (r: &str)
        ensures
            r@ == self.spec_name(),
    {
        self.name.as_str()
    }

    pub(crate) fn name_string(&self) -> (r: &String)
        ensures
            r@ == self.spec_name(),
    {
        &self.name
    }

    pub fn get_id(&self) -> (r: u64)
        ensures
            r == self.spec_id(),
    {
        self.id
    }

    /// A copy that keeps both the name and the id.
    pub fn duplicate(&self) -> (r: Self)
        ensures
            r.spec_name() == self.spec_name(),
            r.spec_id() == self.spec_id(),
    {
        Identifier { name: self.name.clone(), id: self.id }
    }
}

impl PartialEq for Identifier {
    fn eq(&self, other: &Identifier) -> (r: bool) {
        self.name == other.name && self.id == other.id
    }
}

impl Eq for Identifier {
}

impl vstd::std_specs::cmp::PartialEqSpecImpl for Identifier {
    open spec fn obeys_eq_spec() -> bool {
        true
    }

    open spec fn eq_spec(&self, other: &Identifier) -> bool {
        self.spec_name() == other.spec_name() && self.spec_id() == other.spec_id()
    }
}

} // verus!
