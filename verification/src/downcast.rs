//! A registry of runtime type tags.
//!
//! The exercise matches dynamically typed values against a list of type
//! descriptors. Verus cannot look inside `std::any`, so a type is modeled
//! by a numeric identifier and a name, and a tagged value carries the
//! identifier of its type; the registry walk and its first-match rule are
//! what this module verifies.

use vstd::prelude::*;

verus! {

/// A type descriptor: an identifier and a human-readable name.
pub struct SelfType {
    /// Identifier that stands in for the type's `TypeId`.
    pub id: u64,
    /// Name that stands in for the type's `type_name`.
    pub name: String,
}

/// A value seen only through the identifier of its runtime type.
pub struct AnyValue {
    /// Identifier of the value's type.
    pub type_id: u64,
}

impl SelfType {
    /// The descriptor of the unit type: identifier 0 and an empty name.
    pub fn default() -> (r: SelfType)
        ensures
            r.id == 0,
            r.name@ == Seq::<char>::empty(),
    {
        SelfType { id: 0, name: String::new() }
    }

    /// A descriptor with the given identifier and name.
    pub fn new(id: u64, name: String) -> (r: SelfType)
        ensures
            r.id == id,
            r.name == name,
    {
        SelfType { id, name }
    }

    /// The identifier this descriptor stands for.
    pub fn get_type_id(&self) -> (r: u64)
        ensures
            r == self.id,
    {
        self.id
    }

    /// The name this descriptor stands for.
    pub fn get_type_name(&self) -> (r: &str)
        ensures
            r@ == self.name@,
    {
        self.name.as_str()
    }

    /// Whether a value belongs to this descriptor's type.
    pub fn is_downcasted(&self, t: &AnyValue) -> (r: bool)
        ensures
            r == (t.type_id == self.id),
    {
        t.type_id == self.id
    }
}

/// Index of the first descriptor matching `id`, or -1 when none does.
pub open spec fn match_index(s: Seq<SelfType>, id: u64) -> int
    decreases s.len(),
{
    if s.len() == 0 {
        -1
    } else if s[0].id == id {
        0
    } else {
        let r = match_index(s.skip(1), id);
        if r < 0 {
            -1
        } else {
            r + 1
        }
    }
}

proof fn lemma_match_index_found(s: Seq<SelfType>, id: u64, k: int)
    requires
        0 <= k < s.len(),
        s[k].id == id,
        forall|j: int| 0 <= j < k ==> s[j].id != id,
    ensures
        match_index(s, id) == k,
    decreases s.len(),
{
    if k > 0 {
        lemma_match_index_found(s.skip(1), id, k - 1);
    }
}

proof fn lemma_match_index_none(s: Seq<SelfType>, id: u64)
    requires
        forall|j: int| 0 <= j < s.len() ==> s[j].id != id,
    ensures
        match_index(s, id) == -1,
    decreases s.len(),
{
    if s.len() > 0 {
        lemma_match_index_none(s.skip(1), id);
    }
}

/// An ordered list of type descriptors, searched front to back.
pub struct Downcaster(pub Vec<SelfType>);

impl Downcaster {
    /// The name and identifier of the first descriptor whose type matches
    /// the value, or `None` when no descriptor does.
    pub fn try_get_type(&self, t: &AnyValue) -> (r: Option<(String, u64)>)
        ensures
            (r is Some) <==> match_index(self.0@, t.type_id) >= 0,
            r matches Some(p) ==> {
                let k = match_index(self.0@, t.type_id);
                &&& p.0 == self.0@[k].name
                &&& p.1 == self.0@[k].id
                &&& p.1 == t.type_id
            },
    {
        let n = self.0.len();
        let mut i: usize = 0;
        while i < n
            invariant
                n == self.0@.len(),
                i <= n,
                forall|j: int| 0 <= j < i ==> self.0@[j].id != t.type_id,
            decreases n - i,
        {
            let typ = &self.0[i];
            if typ.is_downcasted(t) {
                proof {
                    lemma_match_index_found(self.0@, t.type_id, i as int);
                }
                return Some((typ.name.clone(), typ.id));
            }
            i = i + 1;
        }
        proof {
            lemma_match_index_none(self.0@, t.type_id);
        }
        None
    }

    /// The registry preloaded with five stock descriptors: bool, String,
    /// &str, i32 and i64, in that order.
    pub fn default() -> (r: Downcaster)
        ensures
            r.0@.len() == 5,
            r.0@[0].id == 1 && r.0@[0].name@ == "bool"@,
            r.0@[1].id == 2 && r.0@[1].name@ == "alloc::string::String"@,
            r.0@[2].id == 3 && r.0@[2].name@ == "&str"@,
            r.0@[3].id == 4 && r.0@[3].name@ == "i32"@,
            r.0@[4].id == 5 && r.0@[4].name@ == "i64"@,
    {
        let mut types: Vec<SelfType> = Vec::new();
        types.push(SelfType::new(1, String::from_str("bool")));
        types.push(SelfType::new(2, String::from_str("alloc::string::String")));
        types.push(SelfType::new(3, String::from_str("&str")));
        types.push(SelfType::new(4, String::from_str("i32")));
        types.push(SelfType::new(5, String::from_str("i64")));
        Downcaster(types)
    }

    /// An empty registry.
    pub fn new() -> (r: Downcaster)
        ensures
            r.0@.len() == 0,
    {
        Downcaster(Vec::new())
    }

    /// Appends a descriptor at the end of the registry.
    pub fn push(&mut self, t: SelfType)
        ensures
            final(self).0@ == old(self).0@.push(t),
    {
        self.0.push(t);
    }
}

/// Recovering a type's name and identifier from a tagged value.
pub trait TryDowncast {
    /// The identifier of the value's runtime type.
    spec fn tid(&self) -> u64;

    /// Looks the value's type up in the given registry; first match wins.
    fn try_get_type_from(&self, d: &Downcaster) -> (r: Option<(String, u64)>)
        ensures
            (r is Some) <==> match_index(d.0@, self.tid()) >= 0,
            r matches Some(p) ==> {
                let k = match_index(d.0@, self.tid());
                &&& p.0 == d.0@[k].name
                &&& p.1 == d.0@[k].id
                &&& p.1 == self.tid()
            },
    ;

    /// Looks the value's type up in the default registry.
    fn try_get_type(&self) -> (r: Option<(String, u64)>)
        ensures
            (r is Some) <==> 1 <= self.tid() <= 5,
            r matches Some(p) ==> p.1 == self.tid(),
    ;
}

impl TryDowncast for AnyValue {
    open spec fn tid(&self) -> u64 {
        self.type_id
    }

    fn try_get_type_from(&self, d: &Downcaster) -> (r: Option<(String, u64)>) {
        d.try_get_type(self)
    }

    fn try_get_type(&self) -> (r: Option<(String, u64)>) {
        let d = Downcaster::default();
        let r = d.try_get_type(self);
        proof {
            let s = d.0@;
            if 1 <= self.type_id <= 5 {
                assert(s[self.type_id - 1].id == self.type_id);
                assert(match_index(s, self.type_id) >= 0) by {
                    if match_index(s, self.type_id) < 0 {
                        lemma_match_index_bounds(s, self.type_id);
                    }
                };
            } else {
                assert(forall|j: int| 0 <= j < s.len() ==> s[j].id != self.type_id);
                lemma_match_index_none(s, self.type_id);
            }
        }
        r
    }
}

proof fn lemma_match_index_bounds(s: Seq<SelfType>, id: u64)
    requires
        match_index(s, id) < 0,
    ensures
        forall|j: int| 0 <= j < s.len() ==> s[j].id != id,
    decreases s.len(),
{
    if s.len() > 0 && s[0].id != id {
        lemma_match_index_bounds(s.skip(1), id);
        assert forall|j: int| 0 <= j < s.len() implies s[j].id != id by {
            if j > 0 {
                assert(s.skip(1)[j - 1].id != id);
            }
        };
    }
}

} // verus!
