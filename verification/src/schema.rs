//! The recursive type descriptor and the registry of named composite
//! (struct and enum) type definitions.

use vstd::prelude::*;

verus! {

/// A recursive, closed description of a wire type.  `Custom` refers to a
/// struct or enum definition resolved by name through the registry; it is
/// never a terminal leaf.
#[derive(Debug, PartialEq, Eq)]
pub enum TypeDescriptor {
    Bool,
    I32,
    I64,
    U8,
    U32,
    U64,
    U128,
    U256,
    U512,
    String,
    Key,
    URef,
    PublicKey,
    Unit,
    Option(Box<TypeDescriptor>),
    List(Box<TypeDescriptor>),
    ByteArray(u32),
    Result(Box<TypeDescriptor>, Box<TypeDescriptor>),
    MapOf(Box<TypeDescriptor>, Box<TypeDescriptor>),
    Tuple1(Box<TypeDescriptor>),
    Tuple2(Box<TypeDescriptor>, Box<TypeDescriptor>),
    Tuple3(Box<TypeDescriptor>, Box<TypeDescriptor>, Box<TypeDescriptor>),
    Custom(String),
}

impl TypeDescriptor {
    /// Structural height of a descriptor; recursion through the registry
    /// is measured separately, by an explicit depth budget.
    pub open spec fn height(self) -> nat
        decreases self,
    {
        match self {
            TypeDescriptor::Option(t) => t.height() + 1,
            TypeDescriptor::List(t) => t.height() + 1,
            TypeDescriptor::Result(a, b) => vstd::math::max(a.height() as int, b.height() as int) as nat + 1,
            TypeDescriptor::MapOf(a, b) => vstd::math::max(a.height() as int, b.height() as int) as nat + 1,
            TypeDescriptor::Tuple1(a) => a.height() + 1,
            TypeDescriptor::Tuple2(a, b) => vstd::math::max(a.height() as int, b.height() as int) as nat + 1,
            TypeDescriptor::Tuple3(a, b, c) => vstd::math::max(
                a.height() as int,
                vstd::math::max(b.height() as int, c.height() as int),
            ) as nat + 1,
            _ => 1,
        }
    }

    /// A primitive descriptor occupies exactly one flat value slot.
    pub open spec fn spec_is_leaf(&self) -> bool {
        !(self matches TypeDescriptor::Custom(_) || self matches TypeDescriptor::List(_))
    }

    /// Executable test matching [`TypeDescriptor::spec_is_leaf`].
    #[verifier::when_used_as_spec(spec_is_leaf)]
    pub fn is_leaf(&self) -> (r: bool)
        ensures
            r == self.spec_is_leaf(),
    {
        !(matches!(self, TypeDescriptor::Custom(_)) || matches!(self, TypeDescriptor::List(_)))
    }
}

impl View for TypeDescriptor {
    type V = TypeDescriptor;

    open spec fn view(&self) -> TypeDescriptor {
        *self
    }
}

impl DeepView for TypeDescriptor {
    type V = TypeDescriptor;

    open spec fn deep_view(&self) -> TypeDescriptor {
        *self
    }
}

impl Clone for TypeDescriptor {
    /// A structural copy of the descriptor.
    fn clone(&self) -> (r: Self)
        ensures
            r == *self,
        decreases *self,
    {
        match self {
            TypeDescriptor::Bool => TypeDescriptor::Bool,
            TypeDescriptor::I32 => TypeDescriptor::I32,
            TypeDescriptor::I64 => TypeDescriptor::I64,
            TypeDescriptor::U8 => TypeDescriptor::U8,
            TypeDescriptor::U32 => TypeDescriptor::U32,
            TypeDescriptor::U64 => TypeDescriptor::U64,
            TypeDescriptor::U128 => TypeDescriptor::U128,
            TypeDescriptor::U256 => TypeDescriptor::U256,
            TypeDescriptor::U512 => TypeDescriptor::U512,
            TypeDescriptor::String => TypeDescriptor::String,
            TypeDescriptor::Key => TypeDescriptor::Key,
            TypeDescriptor::URef => TypeDescriptor::URef,
            TypeDescriptor::PublicKey => TypeDescriptor::PublicKey,
            TypeDescriptor::Unit => TypeDescriptor::Unit,
            TypeDescriptor::Option(t) => TypeDescriptor::Option(Box::new((**t).clone())),
            TypeDescriptor::List(t) => TypeDescriptor::List(Box::new((**t).clone())),
            TypeDescriptor::ByteArray(n) => TypeDescriptor::ByteArray(*n),
            TypeDescriptor::Result(a, b) => TypeDescriptor::Result(
                Box::new((**a).clone()),
                Box::new((**b).clone()),
            ),
            TypeDescriptor::MapOf(a, b) => TypeDescriptor::MapOf(
                Box::new((**a).clone()),
                Box::new((**b).clone()),
            ),
            TypeDescriptor::Tuple1(a) => TypeDescriptor::Tuple1(Box::new((**a).clone())),
            TypeDescriptor::Tuple2(a, b) => TypeDescriptor::Tuple2(
                Box::new((**a).clone()),
                Box::new((**b).clone()),
            ),
            TypeDescriptor::Tuple3(a, b, c) => TypeDescriptor::Tuple3(
                Box::new((**a).clone()),
                Box::new((**b).clone()),
                Box::new((**c).clone()),
            ),
            TypeDescriptor::Custom(name) => TypeDescriptor::Custom(name.clone()),
        }
    }
}

/// One named member of a struct definition.
#[derive(Debug, PartialEq, Eq)]
pub struct StructMember {
    pub name: String,
    pub description: String,
    pub ty: TypeDescriptor,
}

/// One named variant of an enum definition, identified on the wire by its
/// discriminant.
#[derive(Debug, PartialEq, Eq)]
pub struct EnumVariant {
    pub name: String,
    pub description: String,
    pub discriminant: u16,
    pub ty: TypeDescriptor,
}

/// A registry entry: a named composite definition.
#[derive(Debug, PartialEq, Eq)]
pub enum CustomType {
    Struct { name: String, members: Vec<StructMember> },
    Enum { name: String, variants: Vec<EnumVariant> },
}

impl CustomType {
    /// The name under which the definition is registered.
    pub open spec fn spec_name(self) -> Seq<char> {
        match self {
            CustomType::Struct { name, .. } => name@,
            CustomType::Enum { name, .. } => name@,
        }
    }
}

/// The index of the first registry entry named `name`.
pub open spec fn find_in(entries: Seq<CustomType>, name: Seq<char>) -> Option<int>
    decreases entries.len(),
{
    if entries.len() == 0 {
        None
    } else if entries[0].spec_name() == name {
        Some(0int)
    } else {
        match find_in(entries.drop_first(), name) {
            Some(i) => Some(i + 1),
            None => None,
        }
    }
}

/// A found index points at the first entry carrying the name.
pub proof fn lemma_find_in(entries: Seq<CustomType>, name: Seq<char>)
    ensures
        find_in(entries, name) matches Some(i) ==> (0 <= i < entries.len()
            && entries[i].spec_name() == name && (forall|j: int|
            0 <= j < i ==> (#[trigger] entries[j].spec_name()) != name)),
        find_in(entries, name) is None ==> (forall|j: int|
            0 <= j < entries.len() ==> (#[trigger] entries[j].spec_name()) != name),
    decreases entries.len(),
{
    if entries.len() > 0 {
        let rest = entries.drop_first();
        lemma_find_in(rest, name);
        if entries[0].spec_name() != name {
            assert(forall|j: int| 1 <= j < entries.len() ==> (#[trigger] entries[j].spec_name())
                == rest[j - 1].spec_name());
        }
    }
}

/// Find the first registry entry named `name`.
pub fn find_type<'a>(types: &'a CustomTypeSet, name: &String) -> (r: Option<&'a CustomType>)
    ensures
        r is Some <==> find_in(types.entries@, name@) is Some,
        r matches Some(e) ==> *e == types.entries@[find_in(types.entries@, name@)->0],
{
    let mut i: usize = 0;
    proof {
        lemma_find_in(types.entries@, name@);
    }
    while i < types.entries.len()
        invariant
            0 <= i <= types.entries@.len(),
            forall|j: int| 0 <= j < i ==> (#[trigger] types.entries@[j].spec_name()) != name@,
        decreases types.entries@.len() - i,
    {
        let matches_name = match &types.entries[i] {
            CustomType::Struct { name: n, .. } => n.eq(name),
            CustomType::Enum { name: n, .. } => n.eq(name),
        };
        if matches_name {
            proof {
                lemma_find_first(types.entries@, name@, i as int);
            }
            return Some(&types.entries[i]);
        }
        i = i + 1;
    }
    None
}

/// If nothing before `i` carries the name and `i` does, the search stops
/// at `i`.
proof fn lemma_find_first(entries: Seq<CustomType>, name: Seq<char>, i: int)
    requires
        0 <= i < entries.len(),
        entries[i].spec_name() == name,
        forall|j: int| 0 <= j < i ==> (#[trigger] entries[j].spec_name()) != name,
    ensures
        find_in(entries, name) == Some(i),
    decreases i,
{
    if i > 0 {
        lemma_find_first(entries.drop_first(), name, i - 1);
    }
}

/// The registry: an immutable sequence of named definitions, built once
/// and searched by exact name.  A lookup returns the first definition
/// whose name matches.
pub struct CustomTypeSet {
    pub entries: Vec<CustomType>,
}

impl CustomTypeSet {
    /// An empty registry.
    pub fn new() -> (r: CustomTypeSet)
        ensures
            r.entries@.len() == 0,
    {
        CustomTypeSet { entries: Vec::new() }
    }

    /// Register one definition: appended if its name is new, dropped if
    /// the name is already registered, so the registry stays a set keyed
    /// by name.
    pub fn insert(&mut self, entry: CustomType)
        ensures
            final(self).entries@ == with_entry(old(self).entries@, entry),
    {
        let name = match &entry {
            CustomType::Struct { name, .. } => name.clone(),
            CustomType::Enum { name, .. } => name.clone(),
        };
        if find_type(self, &name).is_none() {
            self.entries.push(entry);
        }
    }
}

/// `entries` with one definition added, unless its name is taken.
pub open spec fn with_entry(entries: Seq<CustomType>, entry: CustomType) -> Seq<CustomType> {
    if find_in(entries, entry.spec_name()) is Some {
        entries
    } else {
        entries.push(entry)
    }
}

/// Appending a definition leaves every other name's lookup unchanged, and
/// resolves the appended name to its first occurrence.
pub proof fn lemma_find_in_push(entries: Seq<CustomType>, entry: CustomType, name: Seq<char>)
    ensures
        entry.spec_name() != name ==> find_in(entries.push(entry), name) == find_in(
            entries,
            name,
        ),
        entry.spec_name() == name ==> find_in(entries.push(entry), name) == (
        if find_in(entries, name) is Some {
            find_in(entries, name)
        } else {
            Some(entries.len() as int)
        }),
    decreases entries.len(),
{
    if entries.len() == 0 {
        assert(entries.push(entry).drop_first() =~= Seq::<CustomType>::empty());
        assert(entries.push(entry)[0] == entry);
    } else {
        assert(entries.push(entry)[0] == entries[0]);
        assert(entries.push(entry).drop_first() =~= entries.drop_first().push(entry));
        lemma_find_in_push(entries.drop_first(), entry, name);
    }
}

} // verus!
