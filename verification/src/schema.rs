//! The immutable type catalog that drives deserialization: message ids and
//! polymorphic wire ids name types, and every named type lists its parent,
//! its bit-packed boolean fields and its regular fields.

use vstd::prelude::*;

verus! {

/// The wire primitives a field can have.
#[derive(Clone, Copy, Debug, PartialEq, Eq, Structural)]
pub enum PrimKind {
    Boolean,
    Byte,
    ByteArray,
    Double,
    Float,
    Int,
    Short,
    Utf,
    UnsignedByte,
    UnsignedInt,
    UnsignedShort,
    VarInt,
    VarLong,
    VarShort,
    VarUhInt,
    VarUhLong,
    VarUhShort,
}

/// Classifies a wire type name: a primitive, or not.
pub open spec fn spec_kind_of(name: Seq<char>) -> Option<PrimKind> {
    if name == "Boolean"@ {
        Some(PrimKind::Boolean)
    } else if name == "Byte"@ {
        Some(PrimKind::Byte)
    } else if name == "ByteArray"@ {
        Some(PrimKind::ByteArray)
    } else if name == "Double"@ {
        Some(PrimKind::Double)
    } else if name == "Float"@ {
        Some(PrimKind::Float)
    } else if name == "Int"@ {
        Some(PrimKind::Int)
    } else if name == "Short"@ {
        Some(PrimKind::Short)
    } else if name == "UTF"@ {
        Some(PrimKind::Utf)
    } else if name == "UnsignedByte"@ {
        Some(PrimKind::UnsignedByte)
    } else if name == "UnsignedInt"@ {
        Some(PrimKind::UnsignedInt)
    } else if name == "UnsignedShort"@ {
        Some(PrimKind::UnsignedShort)
    } else if name == "VarInt"@ {
        Some(PrimKind::VarInt)
    } else if name == "VarLong"@ {
        Some(PrimKind::VarLong)
    } else if name == "VarShort"@ {
        Some(PrimKind::VarShort)
    } else if name == "VarUhInt"@ {
        Some(PrimKind::VarUhInt)
    } else if name == "VarUhLong"@ {
        Some(PrimKind::VarUhLong)
    } else if name == "VarUhShort"@ {
        Some(PrimKind::VarUhShort)
    } else {
        None
    }
}

/// Classifies a wire type name against the fixed primitive list.
pub fn kind_of_name(name: &String) -> (r: Option<PrimKind>)
    ensures
        r == spec_kind_of(name@),
{
    if *name == "Boolean".to_owned() {
        Some(PrimKind::Boolean)
    } else if *name == "Byte".to_owned() {
        Some(PrimKind::Byte)
    } else if *name == "ByteArray".to_owned() {
        Some(PrimKind::ByteArray)
    } else if *name == "Double".to_owned() {
        Some(PrimKind::Double)
    } else if *name == "Float".to_owned() {
        Some(PrimKind::Float)
    } else if *name == "Int".to_owned() {
        Some(PrimKind::Int)
    } else if *name == "Short".to_owned() {
        Some(PrimKind::Short)
    } else if *name == "UTF".to_owned() {
        Some(PrimKind::Utf)
    } else if *name == "UnsignedByte".to_owned() {
        Some(PrimKind::UnsignedByte)
    } else if *name == "UnsignedInt".to_owned() {
        Some(PrimKind::UnsignedInt)
    } else if *name == "UnsignedShort".to_owned() {
        Some(PrimKind::UnsignedShort)
    } else if *name == "VarInt".to_owned() {
        Some(PrimKind::VarInt)
    } else if *name == "VarLong".to_owned() {
        Some(PrimKind::VarLong)
    } else if *name == "VarShort".to_owned() {
        Some(PrimKind::VarShort)
    } else if *name == "VarUhInt".to_owned() {
        Some(PrimKind::VarUhInt)
    } else if *name == "VarUhLong".to_owned() {
        Some(PrimKind::VarUhLong)
    } else if *name == "VarUhShort".to_owned() {
        Some(PrimKind::VarUhShort)
    } else {
        None
    }
}

/// How many values a field holds: one, a fixed count, or a count read from
/// the wire as the named primitive just before the values.
#[derive(Debug, Clone)]
pub enum LengthSpec {
    Single,
    Fixed(u64),
    Prefixed(String),
}

pub enum LengthSpecV {
    Single,
    Fixed(u64),
    Prefixed(Seq<char>),
}

impl LengthSpec {
    pub open spec fn view(&self) -> LengthSpecV {
        match self {
            LengthSpec::Single => LengthSpecV::Single,
            LengthSpec::Fixed(n) => LengthSpecV::Fixed(*n),
            LengthSpec::Prefixed(s) => LengthSpecV::Prefixed(s@),
        }
    }
}

/// One field of a type: its key, its wire type name (a primitive, a named
/// type, or the polymorphic sentinel `"ID"`), its length shape, and whether
/// a guard byte precedes it.
#[derive(Debug, Clone)]
pub struct FieldSpec {
    pub name: String,
    pub wire_type: String,
    pub length: LengthSpec,
    pub optional: bool,
}

pub struct FieldSpecV {
    pub name: Seq<char>,
    pub wire_type: Seq<char>,
    pub length: LengthSpecV,
    pub optional: bool,
}

impl FieldSpec {
    pub open spec fn view(&self) -> FieldSpecV {
        FieldSpecV {
            name: self.name@,
            wire_type: self.wire_type@,
            length: self.length.view(),
            optional: self.optional,
        }
    }
}

/// One named type: fields of the parent are read first, then the bit-packed
/// booleans, then the regular fields in declaration order.
#[derive(Debug, Clone)]
pub struct TypeSpec {
    pub name: String,
    pub parent: Option<String>,
    pub bool_vars: Vec<String>,
    pub vars: Vec<FieldSpec>,
}

pub struct TypeSpecV {
    pub name: Seq<char>,
    pub parent: Option<Seq<char>>,
    pub bool_vars: Seq<Seq<char>>,
    pub vars: Seq<FieldSpecV>,
}

impl TypeSpec {
    pub open spec fn view(&self) -> TypeSpecV {
        TypeSpecV {
            name: self.name@,
            parent: match &self.parent {
                Some(p) => Some(p@),
                None => None,
            },
            bool_vars: Seq::new(self.bool_vars@.len(), |i: int| self.bool_vars@[i]@),
            vars: Seq::new(self.vars@.len(), |i: int| self.vars@[i].view()),
        }
    }
}

/// Mathematical form of the catalog.
pub struct CatalogV {
    pub msg_names: Seq<(u16, Seq<char>)>,
    pub id_names: Seq<(u16, Seq<char>)>,
    pub types: Seq<TypeSpecV>,
}

/// First name bound to `id`, if any.
pub open spec fn spec_assoc_name(pairs: Seq<(u16, Seq<char>)>, id: u16) -> Option<Seq<char>>
    decreases pairs.len(),
{
    if pairs.len() == 0 {
        None
    } else if pairs[0].0 == id {
        Some(pairs[0].1)
    } else {
        spec_assoc_name(pairs.subrange(1, pairs.len() as int), id)
    }
}

/// First type named `name`, if any.
pub open spec fn spec_find_type(types: Seq<TypeSpecV>, name: Seq<char>) -> Option<TypeSpecV>
    decreases types.len(),
{
    if types.len() == 0 {
        None
    } else if types[0].name == name {
        Some(types[0])
    } else {
        spec_find_type(types.subrange(1, types.len() as int), name)
    }
}

impl CatalogV {
    /// Name of the top-level type of message `id`.
    pub open spec fn msg_name(self, id: u16) -> Option<Seq<char>> {
        spec_assoc_name(self.msg_names, id)
    }

    /// Name of the type behind polymorphic wire id `id`.
    pub open spec fn id_name(self, id: u16) -> Option<Seq<char>> {
        spec_assoc_name(self.id_names, id)
    }

    /// The spec of the type named `name`.
    pub open spec fn type_of(self, name: Seq<char>) -> Option<TypeSpecV> {
        spec_find_type(self.types, name)
    }
}

/// The immutable catalog: message id to type name, polymorphic wire id to
/// type name, and every named type. Loaded once and only read thereafter.
pub struct SchemaCatalog {
    msg_names: Vec<(u16, String)>,
    id_names: Vec<(u16, String)>,
    types: Vec<TypeSpec>,
}

impl SchemaCatalog {
    pub closed spec fn view(&self) -> CatalogV {
        CatalogV {
            msg_names: Seq::new(
                self.msg_names@.len(),
                |i: int| (self.msg_names@[i].0, self.msg_names@[i].1@),
            ),
            id_names: Seq::new(
                self.id_names@.len(),
                |i: int| (self.id_names@[i].0, self.id_names@[i].1@),
            ),
            types: Seq::new(self.types@.len(), |i: int| self.types@[i].view()),
        }
    }

    pub fn new(msg_names: Vec<(u16, String)>, id_names: Vec<(u16, String)>, types: Vec<TypeSpec>)
        -> (r: SchemaCatalog)
        ensures
            r.view().msg_names == Seq::new(msg_names@.len(), |i: int| (msg_names@[i].0, msg_names@[i].1@)),
            r.view().id_names == Seq::new(id_names@.len(), |i: int| (id_names@[i].0, id_names@[i].1@)),
            r.view().types == Seq::new(types@.len(), |i: int| types@[i].view()),
    {
        SchemaCatalog { msg_names, id_names, types }
    }

    pub fn msg_name(&self, id: u16) -> (r: Option<&String>)
        ensures
            match self.view().msg_name(id) {
                Some(nm) => r matches Some(s) && s@ == nm,
                None => r is None,
            },
    {
        Self::assoc_name(&self.msg_names, id, Ghost(self.view().msg_names))
    }

    pub fn id_name(&self, id: u16) -> (r: Option<&String>)
        ensures
            match self.view().id_name(id) {
                Some(nm) => r matches Some(s) && s@ == nm,
                None => r is None,
            },
    {
        Self::assoc_name(&self.id_names, id, Ghost(self.view().id_names))
    }

    fn assoc_name<'a>(pairs: &'a Vec<(u16, String)>, id: u16, view: Ghost<Seq<(u16, Seq<char>)>>)
        -> (r: Option<&'a String>)
        requires
            view@ == Seq::new(pairs@.len(), |i: int| (pairs@[i].0, pairs@[i].1@)),
        ensures
            match spec_assoc_name(view@, id) {
                Some(nm) => r matches Some(s) && s@ == nm,
                None => r is None,
            },
    {
        let n = pairs.len();
        proof {
            assert(view@.subrange(0, n as int) =~= view@);
        }
        let mut j: usize = 0;
        while j < n
            invariant
                view@ == Seq::new(pairs@.len(), |i: int| (pairs@[i].0, pairs@[i].1@)),
                n == pairs@.len(),
                j <= n,
                spec_assoc_name(view@, id) == spec_assoc_name(
                    view@.subrange(j as int, n as int),
                    id,
                ),
            decreases n - j,
        {
            let ghost seen = view@.subrange(j as int, n as int);
            if pairs[j].0 == id {
                return Some(&pairs[j].1);
            }
            proof {
                assert(seen.subrange(1, seen.len() as int) =~= view@.subrange(j + 1, n as int));
            }
            j = j + 1;
        }
        None
    }

    pub fn type_of(&self, name: &String) -> (r: Option<&TypeSpec>)
        ensures
            match self.view().type_of(name@) {
                Some(t) => r matches Some(ts) && ts.view() == t,
                None => r is None,
            },
    {
        let n = self.types.len();
        proof {
            assert(self.view().types.subrange(0, n as int) =~= self.view().types);
        }
        let mut j: usize = 0;
        while j < n
            invariant
                n == self.types@.len(),
                j <= n,
                spec_find_type(self.view().types, name@) == spec_find_type(
                    self.view().types.subrange(j as int, n as int),
                    name@,
                ),
            decreases n - j,
        {
            let ghost seen = self.view().types.subrange(j as int, n as int);
            if self.types[j].name == *name {
                return Some(&self.types[j]);
            }
            proof {
                assert(seen.subrange(1, seen.len() as int) =~= self.view().types.subrange(
                    j + 1,
                    n as int,
                ));
            }
            j = j + 1;
        }
        None
    }
}

} // verus!
