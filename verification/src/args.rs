//! The flattener, the composer and the schema-aware decoder: one
//! schema-typed argument maps onto an ordered list of dotted-path leaves,
//! flat text values reassemble into one binary payload, and a payload
//! renders back into a textual value through the registry.

use vstd::prelude::*;

use crate::numeric::{push_u32_le, u32_le_bytes};
use crate::outside::string_of;
use crate::schema::{
    find_in, find_type, lemma_find_in, CustomType, CustomTypeSet, EnumVariant, StructMember,
    TypeDescriptor,
};
use crate::strutil::{chars_of, lower_chars, spec_split, split_chars, to_lower_chars};
use crate::types::{encoded_leaf, encoded_seq, Error};

verus! {

/// How deep a chain of registry resolutions the engine will follow: deep
/// enough for any schema a contract author writes, and a hard stop
/// against a definition that refers back to itself.
pub const MAX_TYPE_DEPTH: u32 = 32;

/// The ghost shape of one flat leaf: its dotted path, primitive
/// descriptor, whether a value is owed, and whether it repeats.
pub ghost struct LeafModel {
    pub path: Seq<char>,
    pub ty: TypeDescriptor,
    pub required: bool,
    pub is_list_element: bool,
    pub description: Seq<char>,
}

/// A typed command argument: one flat, CLI-facing leaf of a schema type.
#[derive(Debug)]
pub struct CommandArg {
    pub name: String,
    pub required: bool,
    pub description: String,
    pub ty: TypeDescriptor,
    pub is_list_element: bool,
}

impl View for CommandArg {
    type V = LeafModel;

    open spec fn view(&self) -> LeafModel {
        LeafModel {
            path: self.name@,
            ty: self.ty,
            required: self.required,
            is_list_element: self.is_list_element,
            description: self.description@,
        }
    }
}

impl DeepView for CommandArg {
    type V = LeafModel;

    open spec fn deep_view(&self) -> LeafModel {
        self.view()
    }
}

impl CommandArg {
    /// Build one leaf.
    pub fn new(
        name: &str,
        description: &str,
        ty: TypeDescriptor,
        required: bool,
        is_list_element: bool,
    ) -> (r: CommandArg)
        ensures
            r@ == (LeafModel {
                path: name@,
                ty,
                required,
                is_list_element,
                description: description@,
            }),
    {
        CommandArg {
            name: name.to_owned(),
            required,
            description: description.to_owned(),
            ty,
            is_list_element,
        }
    }
}

/// One named, schema-typed argument of an entry point: the root of one
/// flattening pass.
#[derive(Debug)]
pub struct Argument {
    pub name: String,
    pub ty: TypeDescriptor,
    pub optional: bool,
    pub description: String,
}

/// The ghost shape of an argument.
pub ghost struct ArgModel {
    pub name: Seq<char>,
    pub ty: TypeDescriptor,
    pub optional: bool,
    pub description: Seq<char>,
}

impl View for Argument {
    type V = ArgModel;

    open spec fn view(&self) -> ArgModel {
        ArgModel {
            name: self.name@,
            ty: self.ty,
            optional: self.optional,
            description: self.description@,
        }
    }
}

impl DeepView for Argument {
    type V = ArgModel;

    open spec fn deep_view(&self) -> ArgModel {
        self.view()
    }
}

/// One remote procedure: its name, arguments and declared return type.
#[derive(Debug)]
pub struct Entrypoint {
    pub name: String,
    pub description: String,
    pub arguments: Vec<Argument>,
    pub return_ty: TypeDescriptor,
    pub is_mutable: bool,
}

/// The ordered leaves one argument flattens to, or `None` where a
/// `Custom` reference is unknown or the resolution budget runs out.
/// Structs add the member name to the path; enums add the lowercased
/// variant name and flatten every variant's payload; a list marks every
/// leaf under it repeated; a primitive is one leaf, owed a value unless
/// the argument is optional.
pub open spec fn flatten_spec(
    name: Seq<char>,
    ty: TypeDescriptor,
    optional: bool,
    is_list: bool,
    desc: Seq<char>,
    reg: Seq<CustomType>,
    depth: int,
) -> Option<Seq<LeafModel>>
    decreases depth, ty.height(), 0nat,
{
    match ty {
        TypeDescriptor::Custom(n) => {
            match find_in(reg, n@) {
                Some(i) => {
                    if depth <= 0 {
                        None
                    } else {
                        match reg[i] {
                            CustomType::Struct { members, .. } => flatten_members(
                                name,
                                members@,
                                optional,
                                is_list,
                                reg,
                                depth - 1,
                            ),
                            CustomType::Enum { variants, .. } => flatten_variants(
                                name,
                                variants@,
                                optional,
                                is_list,
                                reg,
                                depth - 1,
                            ),
                        }
                    }
                },
                None => None,
            }
        },
        TypeDescriptor::List(inner) => flatten_spec(name, *inner, optional, true, desc, reg, depth),
        _ => Some(
            seq![
                LeafModel {
                    path: name,
                    ty,
                    required: !optional,
                    is_list_element: is_list,
                    description: desc,
                },
            ],
        ),
    }
}

/// The leaves of a struct's members, in declared order.
pub open spec fn flatten_members(
    prefix: Seq<char>,
    members: Seq<StructMember>,
    optional: bool,
    is_list: bool,
    reg: Seq<CustomType>,
    depth: int,
) -> Option<Seq<LeafModel>>
    decreases depth, 0nat, members.len() + 1,
{
    if members.len() == 0 {
        Some(Seq::<LeafModel>::empty())
    } else if depth <= 0 {
        None
    } else {
        let child = prefix + seq!['.'] + members[0].name@;
        match flatten_spec(
            child,
            members[0].ty,
            optional,
            is_list,
            members[0].description@,
            reg,
            depth - 1,
        ) {
            Some(first) => match flatten_members(
                prefix,
                members.drop_first(),
                optional,
                is_list,
                reg,
                depth,
            ) {
                Some(rest) => Some(first + rest),
                None => None,
            },
            None => None,
        }
    }
}

/// The leaves of an enum's variants, in declared order, all flattened at
/// once under the lowercased variant names.
pub open spec fn flatten_variants(
    prefix: Seq<char>,
    variants: Seq<EnumVariant>,
    optional: bool,
    is_list: bool,
    reg: Seq<CustomType>,
    depth: int,
) -> Option<Seq<LeafModel>>
    decreases depth, 0nat, variants.len() + 1,
{
    if variants.len() == 0 {
        Some(Seq::<LeafModel>::empty())
    } else if depth <= 0 {
        None
    } else {
        let child = prefix + seq!['.'] + lower_chars(variants[0].name@);
        match flatten_spec(
            child,
            variants[0].ty,
            optional,
            is_list,
            variants[0].description@,
            reg,
            depth - 1,
        ) {
            Some(first) => match flatten_variants(
                prefix,
                variants.drop_first(),
                optional,
                is_list,
                reg,
                depth,
            ) {
                Some(rest) => Some(first + rest),
                None => None,
            },
            None => None,
        }
    }
}

/// Flatten one argument into its ordered leaves.  Fails exactly where
/// [`flatten_spec`] rejects it, and reports an unknown type by name.
pub fn flat_arg(arg: &Argument, types: &CustomTypeSet, is_list_element: bool) -> (r: Result<
    Vec<CommandArg>,
    Error,
>)
    ensures
        r is Ok <==> flatten_spec(
            arg.name@,
            arg.ty,
            arg.optional,
            is_list_element,
            arg.description@,
            types.entries@,
            MAX_TYPE_DEPTH as int,
        ) is Some,
        r matches Ok(v) ==> Some(v.deep_view()) == flatten_spec(
            arg.name@,
            arg.ty,
            arg.optional,
            is_list_element,
            arg.description@,
            types.entries@,
            MAX_TYPE_DEPTH as int,
        ),
        arg.ty matches TypeDescriptor::Custom(n) ==> (find_in(types.entries@, n@) is None ==> (
        r matches Err(e) && e matches Error::UnknownType(m) && m@ == n@)),
        r matches Err(e) ==> !(e matches Error::MissingRequiredValue(_)),
{
    flat_arg_depth(
        &arg.name,
        &arg.ty,
        arg.optional,
        is_list_element,
        &arg.description,
        types,
        MAX_TYPE_DEPTH,
    )
}

/// Flatten one argument with an explicit resolution budget.
fn flat_arg_depth(
    name: &String,
    ty: &TypeDescriptor,
    optional: bool,
    is_list: bool,
    desc: &String,
    types: &CustomTypeSet,
    depth: u32,
) -> (r: Result<Vec<CommandArg>, Error>)
    ensures
        r is Ok <==> flatten_spec(
            name@,
            *ty,
            optional,
            is_list,
            desc@,
            types.entries@,
            depth as int,
        ) is Some,
        r matches Ok(v) ==> Some(v.deep_view()) == flatten_spec(
            name@,
            *ty,
            optional,
            is_list,
            desc@,
            types.entries@,
            depth as int,
        ),
        *ty matches TypeDescriptor::Custom(n) ==> (find_in(types.entries@, n@) is None ==> (
        r matches Err(e) && e matches Error::UnknownType(m) && m@ == n@)),
        r matches Err(e) ==> !(e matches Error::MissingRequiredValue(_)),
    decreases depth, ty.height(), 0nat,
{
    match ty {
        TypeDescriptor::Custom(n) => {
            match find_type(types, n) {
                Some(entry) => {
                    proof {
                        lemma_find_in(types.entries@, n@);
                    }
                    if depth == 0 {
                        return Err(Error::Formatting(n.clone()));
                    }
                    match entry {
                        CustomType::Struct { members, .. } => flat_members(
                            name,
                            members,
                            optional,
                            is_list,
                            types,
                            depth - 1,
                        ),
                        CustomType::Enum { variants, .. } => flat_variants(
                            name,
                            variants,
                            optional,
                            is_list,
                            types,
                            depth - 1,
                        ),
                    }
                },
                None => Err(Error::UnknownType(n.clone())),
            }
        },
        TypeDescriptor::List(inner) => flat_arg_depth(
            name,
            &**inner,
            optional,
            true,
            desc,
            types,
            depth,
        ),
        _ => {
            let leaf = CommandArg {
                name: name.clone(),
                required: !optional,
                description: desc.clone(),
                ty: ty.clone(),
                is_list_element: is_list,
            };
            let mut out: Vec<CommandArg> = Vec::new();
            out.push(leaf);
            proof {
                assert(out.deep_view() =~= seq![
                    LeafModel {
                        path: name@,
                        ty: *ty,
                        required: !optional,
                        is_list_element: is_list,
                        description: desc@,
                    },
                ]);
            }
            Ok(out)
        },
    }
}

/// Flatten a struct's members in declared order.
#[verifier::loop_isolation(false)]
fn flat_members(
    prefix: &String,
    members: &Vec<StructMember>,
    optional: bool,
    is_list: bool,
    types: &CustomTypeSet,
    depth: u32,
) -> (r: Result<Vec<CommandArg>, Error>)
    ensures
        r is Ok <==> flatten_members(
            prefix@,
            members@,
            optional,
            is_list,
            types.entries@,
            depth as int,
        ) is Some,
        r matches Ok(v) ==> Some(v.deep_view()) == flatten_members(
            prefix@,
            members@,
            optional,
            is_list,
            types.entries@,
            depth as int,
        ),
        r matches Err(e) ==> !(e matches Error::MissingRequiredValue(_)),
    decreases depth, 0nat, members@.len() + 1,
{
    let ghost all = members@;
    let mut out: Vec<CommandArg> = Vec::new();
    let mut i: usize = 0;
    proof {
        assert(all.skip(0) =~= all);
        if flatten_members(prefix@, all, optional, is_list, types.entries@, depth as int)
            is Some {
            let ls = flatten_members(
                prefix@,
                all,
                optional,
                is_list,
                types.entries@,
                depth as int,
            )->0;
            assert(out.deep_view() + ls =~= ls);
        }
    }
    while i < members.len()
        invariant
            0 <= i <= all.len(),
            (flatten_members(
                prefix@,
                all.skip(i as int),
                optional,
                is_list,
                types.entries@,
                depth as int,
            ) matches Some(ls) ==> flatten_members(
                prefix@,
                all,
                optional,
                is_list,
                types.entries@,
                depth as int,
            ) == Some(out.deep_view() + ls)),
            (flatten_members(
                prefix@,
                all.skip(i as int),
                optional,
                is_list,
                types.entries@,
                depth as int,
            ) is None ==> flatten_members(
                prefix@,
                all,
                optional,
                is_list,
                types.entries@,
                depth as int,
            ) is None),
        decreases all.len() - i,
    {
        proof {
            assert(all.skip(i as int)[0] == all[i as int]);
            assert(all.skip(i as int).drop_first() =~= all.skip(i + 1));
        }
        let mut child = prefix.clone();
        child.append(".");
        child.append(members[i].name.as_str());
        proof {
            reveal_strlit(".");
            assert("."@ =~= seq!['.']);
            assert(child@ =~= prefix@ + seq!['.'] + all[i as int].name@);
        }
        if depth == 0 {
            return Err(Error::Formatting(string_of(chars_of(child.as_str()).as_slice())));
        }
        let first = match flat_arg_depth(
            &child,
            &members[i].ty,
            optional,
            is_list,
            &members[i].description,
            types,
            depth - 1,
        ) {
            Ok(v) => v,
            Err(e) => {
                return Err(e);
            },
        };
        let ghost old_deep = out.deep_view();
        let ghost first_deep = first.deep_view();
        let mut tail = first;
        out.append(&mut tail);
        proof {
            assert(out.deep_view() =~= old_deep + first_deep);
            if flatten_members(
                prefix@,
                all.skip(i + 1),
                optional,
                is_list,
                types.entries@,
                depth as int,
            ) is Some {
                let ls2 = flatten_members(
                    prefix@,
                    all.skip(i + 1),
                    optional,
                    is_list,
                    types.entries@,
                    depth as int,
                )->0;
                assert(old_deep + (first_deep + ls2) =~= (old_deep + first_deep) + ls2);
            }
        }
        i = i + 1;
    }
    proof {
        assert(all.skip(all.len() as int) =~= Seq::<StructMember>::empty());
        assert(out.deep_view() + Seq::<LeafModel>::empty() =~= out.deep_view());
    }
    Ok(out)
}

/// Flatten an enum's variants in declared order, paths lowercased.
#[verifier::loop_isolation(false)]
fn flat_variants(
    prefix: &String,
    variants: &Vec<EnumVariant>,
    optional: bool,
    is_list: bool,
    types: &CustomTypeSet,
    depth: u32,
) -> (r: Result<Vec<CommandArg>, Error>)
    ensures
        r is Ok <==> flatten_variants(
            prefix@,
            variants@,
            optional,
            is_list,
            types.entries@,
            depth as int,
        ) is Some,
        r matches Ok(v) ==> Some(v.deep_view()) == flatten_variants(
            prefix@,
            variants@,
            optional,
            is_list,
            types.entries@,
            depth as int,
        ),
        r matches Err(e) ==> !(e matches Error::MissingRequiredValue(_)),
    decreases depth, 0nat, variants@.len() + 1,
{
    let ghost all = variants@;
    let mut out: Vec<CommandArg> = Vec::new();
    let mut i: usize = 0;
    proof {
        assert(all.skip(0) =~= all);
        if flatten_variants(prefix@, all, optional, is_list, types.entries@, depth as int)
            is Some {
            let ls = flatten_variants(
                prefix@,
                all,
                optional,
                is_list,
                types.entries@,
                depth as int,
            )->0;
            assert(out.deep_view() + ls =~= ls);
        }
    }
    while i < variants.len()
        invariant
            0 <= i <= all.len(),
            (flatten_variants(
                prefix@,
                all.skip(i as int),
                optional,
                is_list,
                types.entries@,
                depth as int,
            ) matches Some(ls) ==> flatten_variants(
                prefix@,
                all,
                optional,
                is_list,
                types.entries@,
                depth as int,
            ) == Some(out.deep_view() + ls)),
            (flatten_variants(
                prefix@,
                all.skip(i as int),
                optional,
                is_list,
                types.entries@,
                depth as int,
            ) is None ==> flatten_variants(
                prefix@,
                all,
                optional,
                is_list,
                types.entries@,
                depth as int,
            ) is None),
        decreases all.len() - i,
    {
        proof {
            assert(all.skip(i as int)[0] == all[i as int]);
            assert(all.skip(i as int).drop_first() =~= all.skip(i + 1));
        }
        let lowered_chars = to_lower_chars(chars_of(variants[i].name.as_str()).as_slice());
        let lowered = string_of(lowered_chars.as_slice());
        let mut child = prefix.clone();
        child.append(".");
        child.append(lowered.as_str());
        proof {
            reveal_strlit(".");
            assert("."@ =~= seq!['.']);
            assert(child@ =~= prefix@ + seq!['.'] + lower_chars(all[i as int].name@));
        }
        if depth == 0 {
            return Err(Error::Formatting(string_of(chars_of(child.as_str()).as_slice())));
        }
        let first = match flat_arg_depth(
            &child,
            &variants[i].ty,
            optional,
            is_list,
            &variants[i].description,
            types,
            depth - 1,
        ) {
            Ok(v) => v,
            Err(e) => {
                return Err(e);
            },
        };
        let ghost old_deep = out.deep_view();
        let ghost first_deep = first.deep_view();
        let mut tail = first;
        out.append(&mut tail);
        proof {
            assert(out.deep_view() =~= old_deep + first_deep);
            if flatten_variants(
                prefix@,
                all.skip(i + 1),
                optional,
                is_list,
                types.entries@,
                depth as int,
            ) is Some {
                let ls2 = flatten_variants(
                    prefix@,
                    all.skip(i + 1),
                    optional,
                    is_list,
                    types.entries@,
                    depth as int,
                )->0;
                assert(old_deep + (first_deep + ls2) =~= (old_deep + first_deep) + ls2);
            }
        }
        i = i + 1;
    }
    proof {
        assert(all.skip(all.len() as int) =~= Seq::<EnumVariant>::empty());
        assert(out.deep_view() + Seq::<LeafModel>::empty() =~= out.deep_view());
    }
    Ok(out)
}

/// The leaves of every argument of an entry point, in order.
pub open spec fn flatten_all(
    args: Seq<ArgModel>,
    reg: Seq<CustomType>,
    depth: int,
) -> Option<Seq<LeafModel>>
    decreases args.len(),
{
    if args.len() == 0 {
        Some(Seq::<LeafModel>::empty())
    } else {
        match flatten_spec(
            args[0].name,
            args[0].ty,
            args[0].optional,
            false,
            args[0].description,
            reg,
            depth,
        ) {
            Some(first) => match flatten_all(args.drop_first(), reg, depth) {
                Some(rest) => Some(first + rest),
                None => None,
            },
            None => None,
        }
    }
}

/// The flat flags of one entry point: every argument's leaves, in
/// declaration order.
#[verifier::loop_isolation(false)]
pub fn entry_point_args(entry_point: &Entrypoint, types: &CustomTypeSet) -> (r: Result<
    Vec<CommandArg>,
    Error,
>)
    ensures
        r is Ok <==> flatten_all(
            entry_point.arguments.deep_view(),
            types.entries@,
            MAX_TYPE_DEPTH as int,
        ) is Some,
        r matches Ok(v) ==> Some(v.deep_view()) == flatten_all(
            entry_point.arguments.deep_view(),
            types.entries@,
            MAX_TYPE_DEPTH as int,
        ),
{
    let ghost all = entry_point.arguments.deep_view();
    let mut out: Vec<CommandArg> = Vec::new();
    let mut i: usize = 0;
    proof {
        assert(all.skip(0) =~= all);
        if flatten_all(all, types.entries@, MAX_TYPE_DEPTH as int) is Some {
            let ls = flatten_all(all, types.entries@, MAX_TYPE_DEPTH as int)->0;
            assert(out.deep_view() + ls =~= ls);
        }
    }
    while i < entry_point.arguments.len()
        invariant
            0 <= i <= all.len(),
            all.len() == entry_point.arguments@.len(),
            (flatten_all(all.skip(i as int), types.entries@, MAX_TYPE_DEPTH as int) matches Some(
                ls,
            ) ==> flatten_all(all, types.entries@, MAX_TYPE_DEPTH as int) == Some(
                out.deep_view() + ls,
            )),
            (flatten_all(all.skip(i as int), types.entries@, MAX_TYPE_DEPTH as int) is None
                ==> flatten_all(all, types.entries@, MAX_TYPE_DEPTH as int) is None),
        decreases all.len() - i,
    {
        proof {
            assert(entry_point.arguments.deep_view()[i as int]
                == entry_point.arguments@[i as int].deep_view());
            assert(all.skip(i as int)[0] == all[i as int]);
            assert(all.skip(i as int).drop_first() =~= all.skip(i + 1));
        }
        let first = match flat_arg(&entry_point.arguments[i], types, false) {
            Ok(v) => v,
            Err(e) => {
                return Err(e);
            },
        };
        let ghost old_deep = out.deep_view();
        let ghost first_deep = first.deep_view();
        let mut tail = first;
        out.append(&mut tail);
        proof {
            assert(out.deep_view() =~= old_deep + first_deep);
            if flatten_all(all.skip(i + 1), types.entries@, MAX_TYPE_DEPTH as int) is Some {
                let ls2 = flatten_all(all.skip(i + 1), types.entries@, MAX_TYPE_DEPTH as int)->0;
                assert(old_deep + (first_deep + ls2) =~= (old_deep + first_deep) + ls2);
            }
        }
        i = i + 1;
    }
    proof {
        assert(all.skip(all.len() as int) =~= Seq::<ArgModel>::empty());
        assert(out.deep_view() + Seq::<LeafModel>::empty() =~= out.deep_view());
    }
    Ok(out)
}

/// The flat values one invocation supplies: dotted paths to the raw
/// strings given for them, searched by exact path, first match.
pub struct ArgValues {
    pub entries: Vec<(String, Vec<String>)>,
}

/// The strings supplied under `path`, if any.
pub open spec fn lookup_vals(vals: Seq<(Seq<char>, Seq<Seq<char>>)>, path: Seq<char>) -> Option<
    Seq<Seq<char>>,
>
    decreases vals.len(),
{
    if vals.len() == 0 {
        None
    } else if vals[0].0 == path {
        Some(vals[0].1)
    } else {
        lookup_vals(vals.drop_first(), path)
    }
}

impl ArgValues {
    /// An empty value map.
    pub fn new() -> (r: ArgValues)
        ensures
            r.entries@.len() == 0,
    {
        ArgValues { entries: Vec::new() }
    }

    /// Record the strings supplied under one path.
    pub fn push(&mut self, path: String, values: Vec<String>)
        ensures
            final(self).entries.deep_view() =~~= old(self).entries.deep_view().push(
                (path@, values.deep_view()),
            ),
    {
        let ghost old_deep = self.entries.deep_view();
        self.entries.push((path, values));
        proof {
            assert(self.entries.deep_view() =~~= old_deep.push(
                self.entries@.last().deep_view(),
            ));
        }
    }

    /// The strings supplied under `path`, if any.
    pub fn get<'a>(&'a self, path: &String) -> (r: Option<&'a Vec<String>>)
        ensures
            r is Some <==> lookup_vals(self.entries.deep_view(), path@) is Some,
            r matches Some(v) ==> Some(v.deep_view()) == lookup_vals(
                self.entries.deep_view(),
                path@,
            ),
    {
        let ghost all = self.entries.deep_view();
        let mut i: usize = 0;
        proof {
            assert(all.skip(0) =~~= all);
        }
        while i < self.entries.len()
            invariant
                0 <= i <= self.entries@.len(),
                all =~~= self.entries.deep_view(),
                all.len() == self.entries@.len(),
                (lookup_vals(all.skip(i as int), path@) matches Some(vs) ==> lookup_vals(
                    all,
                    path@,
                ) == Some(vs)),
                (lookup_vals(all.skip(i as int), path@) is None ==> lookup_vals(all, path@)
                    is None),
            decreases self.entries@.len() - i,
        {
            proof {
                assert(self.entries.deep_view()[i as int]
                    == self.entries@[i as int].deep_view());
                assert(all.skip(i as int)[0] == all[i as int]);
                assert(all.skip(i as int).drop_first() =~~= all.skip(i + 1));
            }
            if self.entries[i].0.eq(path) {
                return Some(&self.entries[i].1);
            }
            i = i + 1;
        }
        proof {
            assert(all.skip(all.len() as int) =~~= Seq::<(Seq<char>, Seq<Seq<char>>)>::empty());
        }
        None
    }
}

/// The second-to-last dotted segment of a path: the name of the repeated
/// structure a leaf belongs to, or empty text for an undotted path.
pub open spec fn parent_of(path: Seq<char>) -> Seq<char> {
    let segs = spec_split(path, '.');
    if segs.len() >= 2 {
        segs[segs.len() - 2]
    } else {
        Seq::<char>::empty()
    }
}

/// The parent segment of a path.
pub fn parent_segment(path: &String) -> (r: Vec<char>)
    ensures
        r@ =~= parent_of(path@),
{
    let chars = chars_of(path.as_str());
    let segs = split_chars(chars.as_slice(), '.');
    proof {
        assert(segs.deep_view() =~~= spec_split(path@, '.'));
    }
    if segs.len() >= 2 {
        let mut out: Vec<char> = Vec::new();
        out.extend_from_slice(segs[segs.len() - 2].as_slice());
        proof {
            assert(segs.deep_view()[segs@.len() - 2] =~= segs@[segs@.len() - 2]@);
            assert(out@ =~= parent_of(path@));
        }
        out
    } else {
        Vec::new()
    }
}

/// One row of a group: each column's value at index `i`, encoded with the
/// column's type, in column order.
pub open spec fn row_bytes(cols: Seq<(TypeDescriptor, Seq<Seq<char>>)>, i: int) -> Option<Seq<u8>>
    decreases cols.len(),
{
    if cols.len() == 0 {
        Some(Seq::<u8>::empty())
    } else {
        match encoded_leaf(cols[0].0, cols[0].1[i]) {
            Some(b) => match row_bytes(cols.drop_first(), i) {
                Some(rest) => Some(b + rest),
                None => None,
            },
            None => None,
        }
    }
}

/// The rows `i..l` of a group, each fully encoded before the next: the
/// interleaved array-of-records layout.
pub open spec fn rows_bytes(cols: Seq<(TypeDescriptor, Seq<Seq<char>>)>, i: int, l: int) -> Option<
    Seq<u8>,
>
    decreases l - i,
{
    if i >= l {
        Some(Seq::<u8>::empty())
    } else {
        match row_bytes(cols, i) {
            Some(b) => match rows_bytes(cols, i + 1, l) {
                Some(rest) => Some(b + rest),
                None => None,
            },
            None => None,
        }
    }
}

/// What flushing a group emits: nothing for an empty group; otherwise a
/// 4-byte count of the rows (the length every column must share), then
/// each row in order, each record fully encoded in field order before the
/// next record starts.
pub open spec fn flush_spec(cols: Seq<(TypeDescriptor, Seq<Seq<char>>)>) -> Option<Seq<u8>> {
    if cols.len() == 0 {
        Some(Seq::<u8>::empty())
    } else {
        let l = cols[0].1.len() as int;
        if (forall|j: int| 0 <= j < cols.len() ==> (#[trigger] cols[j].1).len() == l) && l
            <= u32::MAX {
            match rows_bytes(cols, 0, l) {
                Some(b) => Some(u32_le_bytes(l) + b),
                None => None,
            }
        } else {
            None
        }
    }
}

/// The payload the composer emits for a run of leaves, walked in order
/// with the current group `(gname, gcols)`.  A leaf with no supplied
/// value contributes nothing if optional and fails the compose if
/// required; a repeated leaf joins the group of its parent segment or
/// flushes the group and starts its own; a plain leaf flushes the group
/// and appends its single encoded value with no count.
pub open spec fn complex_spec(
    leaves: Seq<LeafModel>,
    vals: Seq<(Seq<char>, Seq<Seq<char>>)>,
    gname: Seq<char>,
    gcols: Seq<(TypeDescriptor, Seq<Seq<char>>)>,
) -> Option<Seq<u8>>
    decreases leaves.len(),
{
    if leaves.len() == 0 {
        flush_spec(gcols)
    } else {
        let leaf = leaves[0];
        let rest = leaves.drop_first();
        let supplied = lookup_vals(vals, leaf.path);
        if supplied is None || supplied->0.len() == 0 {
            if leaf.required {
                None
            } else {
                complex_spec(rest, vals, gname, gcols)
            }
        } else {
            let vs = supplied->0;
            if leaf.is_list_element {
                if parent_of(leaf.path) == gname {
                    complex_spec(rest, vals, gname, gcols.push((leaf.ty, vs)))
                } else {
                    match flush_spec(gcols) {
                        Some(fb) => match complex_spec(
                            rest,
                            vals,
                            parent_of(leaf.path),
                            seq![(leaf.ty, vs)],
                        ) {
                            Some(tail) => Some(fb + tail),
                            None => None,
                        },
                        None => None,
                    }
                }
            } else {
                match (flush_spec(gcols), encoded_leaf(leaf.ty, vs[0])) {
                    (Some(fb), Some(eb)) => match complex_spec(
                        rest,
                        vals,
                        gname,
                        Seq::<(TypeDescriptor, Seq<Seq<char>>)>::empty(),
                    ) {
                        Some(tail) => Some(fb + eb + tail),
                        None => None,
                    },
                    _ => None,
                }
            }
        }
    }
}

/// One group of repeated leaves under a shared parent segment: each
/// column holds one leaf's type and its supplied values.
pub struct ComposedArg {
    pub name: String,
    pub values: Vec<(TypeDescriptor, Vec<String>)>,
}

impl ComposedArg {
    /// The ghost columns of the group.
    pub open spec fn cols(&self) -> Seq<(TypeDescriptor, Seq<Seq<char>>)> {
        self.values.deep_view()
    }

    /// An empty group under `name`.
    pub fn new(name: &str) -> (r: ComposedArg)
        ensures
            r.name@ == name@,
            r.cols() =~~= Seq::<(TypeDescriptor, Seq<Seq<char>>)>::empty(),
    {
        ComposedArg { name: name.to_owned(), values: Vec::new() }
    }

    /// Append one column.
    pub fn add(&mut self, value: (TypeDescriptor, Vec<String>))
        ensures
            final(self).cols() =~~= old(self).cols().push(
                (value.0, value.1.deep_view()),
            ),
            final(self).name == old(self).name,
    {
        let ghost old_deep = self.values.deep_view();
        let ghost pushed = (value.0, value.1.deep_view());
        self.values.push(value);
        proof {
            assert(self.values.deep_view() =~~= old_deep.push(pushed));
        }
    }

    /// Flush the group into the buffer: a 4-byte row count, then each row
    /// fully encoded in column order.  Leaves the group empty, under its
    /// old name.
    #[verifier::loop_isolation(false)]
    pub fn flush(&mut self, buffer: &mut Vec<u8>) -> (r: Result<(), Error>)
        ensures
            r is Ok <==> flush_spec(old(self).cols()) is Some,
            r matches Ok(u) ==> final(buffer)@ == old(buffer)@ + flush_spec(old(self).cols())->0,
            r is Ok ==> final(self).cols() =~~= Seq::<(TypeDescriptor, Seq<Seq<char>>)>::empty(),
            r is Ok ==> final(self).name == old(self).name,
            r is Err ==> final(buffer)@ == old(buffer)@,
            r matches Err(e) ==> !(e matches Error::MissingRequiredValue(_)),
    {
        let ghost cols = self.cols();
        if self.values.len() == 0 {
            proof {
                assert(buffer@ + Seq::<u8>::empty() =~= buffer@);
            }
            return Ok(());
        }
        proof {
            assert(self.values.deep_view()[0] == self.values@[0].deep_view());
        }
        let l = self.values[0].1.len();
        let mut j: usize = 1;
        while j < self.values.len()
            invariant
                1 <= j <= self.values@.len(),
                forall|k: int| 0 <= k < j ==> (#[trigger] cols[k].1).len() == l as int,
            decreases self.values@.len() - j,
        {
            proof {
                assert(self.values.deep_view()[j as int] == self.values@[j as int].deep_view());
            }
            if self.values[j].1.len() != l {
                proof {
                    assert(cols[j as int].1.len() != l as int);
                }
                return Err(Error::Formatting(self.name.clone()));
            }
            j = j + 1;
        }
        if l > 0xffffffffusize {
            return Err(Error::SerializationError);
        }
        let mut out: Vec<u8> = Vec::new();
        push_u32_le(&mut out, l as u32);
        proof {
            assert(out@ =~= u32_le_bytes(l as int) + rows_bytes(cols, 0, 0)->0);
        }
        let mut i: usize = 0;
        while i < l
            invariant
                0 <= i <= l,
                rows_bytes(cols, 0, i as int) is Some,
                out@ =~= u32_le_bytes(l as int) + rows_bytes(cols, 0, i as int)->0,
            decreases l - i,
        {
            let mut row: Vec<u8> = Vec::new();
            let mut c: usize = 0;
            proof {
                assert(cols.skip(0) =~~= cols);
                if row_bytes(cols, i as int) is Some {
                    assert(row@ + row_bytes(cols, i as int)->0 =~= row_bytes(cols, i as int)->0);
                }
            }
            while c < self.values.len()
                invariant
                    0 <= c <= self.values@.len(),
                    0 <= i < l,
                    (row_bytes(cols.skip(c as int), i as int) matches Some(rb) ==> row_bytes(
                        cols,
                        i as int,
                    ) == Some(row@ + rb)),
                    (row_bytes(cols.skip(c as int), i as int) is None ==> row_bytes(
                        cols,
                        i as int,
                    ) is None),
                decreases self.values@.len() - c,
            {
                proof {
                    assert(self.values.deep_view()[c as int]
                        == self.values@[c as int].deep_view());
                    assert(cols.skip(c as int)[0] == cols[c as int]);
                    assert(cols.skip(c as int).drop_first() =~~= cols.skip(c + 1));
                    assert(self.values@[c as int].1.deep_view()[i as int]
                        == self.values@[c as int].1@[i as int]@);
                }
                let eb = match crate::types::into_bytes(
                    &self.values[c].0,
                    self.values[c].1[i].as_str(),
                ) {
                    Ok(b) => b,
                    Err(e) => {
                        proof {
                            lemma_rows_split(cols, 0, i as int, l as int);
                        }
                        return Err(e);
                    },
                };
                let ghost old_row = row@;
                let ghost ebv = eb@;
                let mut tail = eb;
                row.append(&mut tail);
                proof {
                    if row_bytes(cols.skip(c + 1), i as int) is Some {
                        let rb2 = row_bytes(cols.skip(c + 1), i as int)->0;
                        assert(old_row + (ebv + rb2) =~= (old_row + ebv) + rb2);
                    }
                }
                c = c + 1;
            }
            proof {
                assert(cols.skip(cols.len() as int) =~~= Seq::<
                    (TypeDescriptor, Seq<Seq<char>>),
                >::empty());
                assert(row@ + Seq::<u8>::empty() =~= row@);
                assert(row_bytes(cols, i as int) == Some(row@));
                lemma_rows_split(cols, 0, i as int, i + 1);
                assert(rows_bytes(cols, i + 1, i + 1) == Some(Seq::<u8>::empty()));
                assert(row@ + Seq::<u8>::empty() =~= row@);
            }
            let ghost old_out = out@;
            let mut tail = row;
            out.append(&mut tail);
            proof {
                let r01 = rows_bytes(cols, 0, i as int)->0;
                assert(rows_bytes(cols, 0, i + 1) == Some(r01 + row@)) by {
                    lemma_rows_split(cols, 0, i as int, i + 1);
                    assert(rows_bytes(cols, i as int, i + 1) == Some(
                        row@ + Seq::<u8>::empty(),
                    ));
                }
                assert(out@ =~= u32_le_bytes(l as int) + (r01 + row@));
            }
            i = i + 1;
        }
        let ghost produced = out@;
        buffer.append(&mut out);
        self.values.clear();
        proof {
            assert(flush_spec(cols) == Some(u32_le_bytes(l as int) + rows_bytes(
                cols,
                0,
                l as int,
            )->0));
            assert(self.values.deep_view() =~~= Seq::<(TypeDescriptor, Seq<Seq<char>>)>::empty());
        }
        Ok(())
    }
}

/// Rows split at any boundary: the rows of `a..b` are the rows of `a..m`
/// followed by the rows of `m..b`.
pub proof fn lemma_rows_split(cols: Seq<(TypeDescriptor, Seq<Seq<char>>)>, a: int, m: int, b: int)
    requires
        a <= m <= b,
    ensures
        rows_bytes(cols, a, b) == match (rows_bytes(cols, a, m), rows_bytes(cols, m, b)) {
            (Some(x), Some(y)) => Some(x + y),
            _ => None::<Seq<u8>>,
        },
    decreases m - a,
{
    if a == m {
        if rows_bytes(cols, m, b) is Some {
            assert(Seq::<u8>::empty() + rows_bytes(cols, m, b)->0 =~= rows_bytes(cols, m, b)->0);
        }
    } else {
        lemma_rows_split(cols, a + 1, m, b);
        if row_bytes(cols, a) is Some && rows_bytes(cols, a + 1, m) is Some && rows_bytes(
            cols,
            m,
            b,
        ) is Some {
            let h = row_bytes(cols, a)->0;
            let x = rows_bytes(cols, a + 1, m)->0;
            let y = rows_bytes(cols, m, b)->0;
            assert(h + (x + y) =~= (h + x) + y);
        }
    }
}


/// Reassemble flat leaf values into one binary payload: walk the leaves
/// in order, group adjacent repeated leaves under a shared parent into
/// interleaved records, and append plain leaves directly.  Succeeds
/// exactly where [`complex_spec`] accepts the walk from an empty group.
#[verifier::loop_isolation(false)]
pub fn build_complex_arg(args: &Vec<CommandArg>, matches: &ArgValues) -> (r: Result<Vec<u8>, Error>)
    ensures
        r is Ok <==> complex_spec(
            args.deep_view(),
            matches.entries.deep_view(),
            Seq::<char>::empty(),
            Seq::<(TypeDescriptor, Seq<Seq<char>>)>::empty(),
        ) is Some,
        r matches Ok(b) ==> Some(b@) == complex_spec(
            args.deep_view(),
            matches.entries.deep_view(),
            Seq::<char>::empty(),
            Seq::<(TypeDescriptor, Seq<Seq<char>>)>::empty(),
        ),
        r matches Err(e) ==> (e matches Error::MissingRequiredValue(q) ==> (lookup_vals(
            matches.entries.deep_view(),
            q@,
        ) is None || lookup_vals(matches.entries.deep_view(), q@)->0.len() == 0)),
        complex_missing(
            args.deep_view(),
            matches.entries.deep_view(),
            Seq::<char>::empty(),
            Seq::<(TypeDescriptor, Seq<Seq<char>>)>::empty(),
        ) matches Some(p) ==> (r matches Err(e) && e matches Error::MissingRequiredValue(q)
            && q@ == p),
{
    let ghost leaves = args.deep_view();
    let ghost vals = matches.entries.deep_view();
    let mut current_group = ComposedArg::new("");
    let mut buffer: Vec<u8> = Vec::new();
    let mut i: usize = 0;
    proof {
        reveal_strlit("");
        assert(current_group.name@ =~= Seq::<char>::empty());
        assert(leaves.skip(0) =~= leaves);
    }
    while i < args.len()
        invariant
            0 <= i <= leaves.len(),
            leaves.len() == args@.len(),
            leaves =~= args.deep_view(),
            vals =~~= matches.entries.deep_view(),
            (complex_spec(leaves.skip(i as int), vals, current_group.name@, current_group.cols())
                matches Some(tail) ==> complex_spec(
                leaves,
                vals,
                Seq::<char>::empty(),
                Seq::<(TypeDescriptor, Seq<Seq<char>>)>::empty(),
            ) == Some(buffer@ + tail)),
            (complex_spec(leaves.skip(i as int), vals, current_group.name@, current_group.cols())
                is None ==> complex_spec(
                leaves,
                vals,
                Seq::<char>::empty(),
                Seq::<(TypeDescriptor, Seq<Seq<char>>)>::empty(),
            ) is None),
            complex_missing(leaves, vals, Seq::<char>::empty(), Seq::<
                (TypeDescriptor, Seq<Seq<char>>),
            >::empty()) == complex_missing(
                leaves.skip(i as int),
                vals,
                current_group.name@,
                current_group.cols(),
            ),
        decreases leaves.len() - i,
    {
        proof {
            assert(args.deep_view()[i as int] == args@[i as int].deep_view());
            assert(leaves.skip(i as int)[0] == leaves[i as int]);
            assert(leaves.skip(i as int).drop_first() =~= leaves.skip(i + 1));
        }
        let supplied = matches.get(&args[i].name);
        let has_values = match &supplied {
            Some(vs) => vs.len() > 0,
            None => false,
        };
        if !has_values {
            if args[i].required {
                return Err(Error::MissingRequiredValue(args[i].name.clone()));
            }
            i = i + 1;
            continue;
        }
        let vs: &Vec<String> = match supplied {
            Some(vs) => vs,
            None => vstd::pervasive::unreached(),
        };
        let ghost vsm = lookup_vals(vals, leaves[i as int].path)->0;
        if args[i].is_list_element {
            let parent_chars = parent_segment(&args[i].name);
            let parent = string_of(parent_chars.as_slice());
            if !parent.eq(&current_group.name) {
                let ghost old_cols = current_group.cols();
                match current_group.flush(&mut buffer) {
                    Ok(_) => {},
                    Err(e) => {
                        return Err(e);
                    },
                }
                current_group = ComposedArg::new(parent.as_str());
                current_group.add((args[i].ty.clone(), vs.clone()));
                proof {
                    assert(vs.deep_view() =~~= vsm);
                    assert(current_group.cols() =~~= seq![(leaves[i as int].ty, vsm)]);
                    assert(current_group.name@ == parent_of(leaves[i as int].path));
                }
            } else {
                current_group.add((args[i].ty.clone(), vs.clone()));
                proof {
                    assert(vs.deep_view() =~~= vsm);
                }
            }
        } else {
            match current_group.flush(&mut buffer) {
                Ok(_) => {},
                Err(e) => {
                    return Err(e);
                },
            }
            let eb = match crate::types::into_bytes(&args[i].ty, vs[0].as_str()) {
                Ok(b) => b,
                Err(e) => {
                    return Err(e);
                },
            };
            proof {
                assert(vs.deep_view()[0] == vs@[0]@);
                assert(vs.deep_view() =~~= vsm);
            }
            let mut tail = eb;
            buffer.append(&mut tail);
        }
        i = i + 1;
    }
    proof {
        assert(leaves.skip(leaves.len() as int) =~= Seq::<LeafModel>::empty());
    }
    match current_group.flush(&mut buffer) {
        Ok(_) => Ok(buffer),
        Err(e) => Err(e),
    }
}

/// The strings of every supplied occurrence, each split at commas, in
/// order: how a single list-typed argument's values flatten before
/// encoding.
pub open spec fn split_all(vs: Seq<Seq<char>>) -> Seq<Seq<char>>
    decreases vs.len(),
{
    if vs.len() == 0 {
        Seq::<Seq<char>>::empty()
    } else {
        spec_split(vs[0], ',') + split_all(vs.drop_first())
    }
}

/// Split every supplied occurrence at commas, keeping order.
#[verifier::loop_isolation(false)]
fn split_all_values(vs: &Vec<String>) -> (r: Vec<Vec<char>>)
    ensures
        r.deep_view() =~~= split_all(vs.deep_view()),
{
    let ghost all = vs.deep_view();
    let mut out: Vec<Vec<char>> = Vec::new();
    let mut i: usize = 0;
    proof {
        assert(all.skip(0) =~~= all);
        assert(out.deep_view() + split_all(all) =~~= split_all(all));
    }
    while i < vs.len()
        invariant
            0 <= i <= all.len(),
            all.len() == vs@.len(),
            out.deep_view() + split_all(all.skip(i as int)) =~~= split_all(all),
        decreases all.len() - i,
    {
        proof {
            assert(vs.deep_view()[i as int] == vs@[i as int]@);
            assert(all.skip(i as int)[0] == all[i as int]);
            assert(all.skip(i as int).drop_first() =~~= all.skip(i + 1));
        }
        let chars = chars_of(vs[i].as_str());
        let parts = split_chars(chars.as_slice(), ',');
        let ghost old_deep = out.deep_view();
        let ghost parts_deep = parts.deep_view();
        let mut tail = parts;
        out.append(&mut tail);
        proof {
            assert(out.deep_view() =~~= old_deep + parts_deep);
            assert(parts_deep =~~= spec_split(all[i as int], ','));
            assert((old_deep + parts_deep) + split_all(all.skip(i + 1)) =~~= old_deep + (
            parts_deep + split_all(all.skip(i + 1))));
        }
        i = i + 1;
    }
    proof {
        assert(all.skip(all.len() as int) =~~= Seq::<Seq<char>>::empty());
        assert(split_all(Seq::<Seq<char>>::empty()) =~~= Seq::<Seq<char>>::empty());
        assert(out.deep_view() + Seq::<Seq<char>>::empty() =~~= out.deep_view());
    }
    out
}

/// Values were supplied under `path`: the map holds the path with at
/// least one string.
pub open spec fn supplied_at(vals: Seq<(Seq<char>, Seq<Seq<char>>)>, path: Seq<char>) -> bool {
    lookup_vals(vals, path) matches Some(vs) && vs.len() > 0
}

/// Some leaf of the run received values.
pub open spec fn any_supplied(leaves: Seq<LeafModel>, vals: Seq<(Seq<char>, Seq<Seq<char>>)>)
    -> bool {
    exists|i: int| 0 <= i < leaves.len() && supplied_at(vals, (#[trigger] leaves[i]).path)
}

/// The path of the first required leaf the walk finds unsupplied, where
/// no failure of another kind comes first; `None` where the walk succeeds
/// or fails for another reason first.
pub open spec fn complex_missing(
    leaves: Seq<LeafModel>,
    vals: Seq<(Seq<char>, Seq<Seq<char>>)>,
    gname: Seq<char>,
    gcols: Seq<(TypeDescriptor, Seq<Seq<char>>)>,
) -> Option<Seq<char>>
    decreases leaves.len(),
{
    if leaves.len() == 0 {
        None
    } else {
        let leaf = leaves[0];
        let rest = leaves.drop_first();
        if !supplied_at(vals, leaf.path) {
            if leaf.required {
                Some(leaf.path)
            } else {
                complex_missing(rest, vals, gname, gcols)
            }
        } else {
            let vs = lookup_vals(vals, leaf.path)->0;
            if leaf.is_list_element {
                if parent_of(leaf.path) == gname {
                    complex_missing(rest, vals, gname, gcols.push((leaf.ty, vs)))
                } else if flush_spec(gcols) is None {
                    None
                } else {
                    complex_missing(rest, vals, parent_of(leaf.path), seq![(leaf.ty, vs)])
                }
            } else {
                if flush_spec(gcols) is None || encoded_leaf(leaf.ty, vs[0]) is None {
                    None
                } else {
                    complex_missing(
                        rest,
                        vals,
                        gname,
                        Seq::<(TypeDescriptor, Seq<Seq<char>>)>::empty(),
                    )
                }
            }
        }
    }
}

/// The named payload one argument composes to, or nothing where an
/// optional argument has no values, or `None` where composing fails.
pub open spec fn compose_arg_spec(
    arg: ArgModel,
    vals: Seq<(Seq<char>, Seq<Seq<char>>)>,
    reg: Seq<CustomType>,
    depth: int,
) -> Option<Option<Seq<u8>>> {
    match flatten_spec(arg.name, arg.ty, arg.optional, false, arg.description, reg, depth) {
        Some(leaves) => {
            if leaves.len() == 1 {
                let leaf = leaves[0];
                if !supplied_at(vals, leaf.path) {
                    if leaf.required {
                        None
                    } else {
                        Some(None)
                    }
                } else {
                    let vs = lookup_vals(vals, leaf.path)->0;
                    if leaf.is_list_element {
                        match encoded_seq(leaf.ty, split_all(vs)) {
                            Some(b) => Some(Some(b)),
                            None => None,
                        }
                    } else {
                        match encoded_leaf(leaf.ty, vs[0]) {
                            Some(b) => Some(Some(b)),
                            None => None,
                        }
                    }
                }
            } else if arg.optional && !any_supplied(leaves, vals) {
                Some(None)
            } else {
                match complex_spec(
                    leaves,
                    vals,
                    Seq::<char>::empty(),
                    Seq::<(TypeDescriptor, Seq<Seq<char>>)>::empty(),
                ) {
                    Some(b) => Some(Some(b)),
                    None => None,
                }
            }
        },
        None => None,
    }
}

/// The named payloads of an entry point's arguments, in order, skipping
/// optional arguments with no supplied values.
pub open spec fn compose_spec(
    args: Seq<ArgModel>,
    vals: Seq<(Seq<char>, Seq<Seq<char>>)>,
    reg: Seq<CustomType>,
    depth: int,
) -> Option<Seq<(Seq<char>, Seq<u8>)>>
    decreases args.len(),
{
    if args.len() == 0 {
        Some(Seq::<(Seq<char>, Seq<u8>)>::empty())
    } else {
        match compose_arg_spec(args[0], vals, reg, depth) {
            Some(entry) => match compose_spec(args.drop_first(), vals, reg, depth) {
                Some(rest) => match entry {
                    Some(b) => Some(seq![(args[0].name, b)] + rest),
                    None => Some(rest),
                },
                None => None,
            },
            None => None,
        }
    }
}

/// The path of the first required leaf found unsupplied while the
/// arguments compose in order, where no failure of another kind comes
/// first.
pub open spec fn compose_missing(
    args: Seq<ArgModel>,
    vals: Seq<(Seq<char>, Seq<Seq<char>>)>,
    reg: Seq<CustomType>,
    depth: int,
) -> Option<Seq<char>>
    decreases args.len(),
{
    if args.len() == 0 {
        None
    } else {
        let arg = args[0];
        let rest = args.drop_first();
        match flatten_spec(arg.name, arg.ty, arg.optional, false, arg.description, reg, depth) {
            Some(leaves) => {
                if leaves.len() == 1 {
                    let leaf = leaves[0];
                    if !supplied_at(vals, leaf.path) {
                        if leaf.required {
                            Some(leaf.path)
                        } else {
                            compose_missing(rest, vals, reg, depth)
                        }
                    } else if (if leaf.is_list_element {
                        encoded_seq(leaf.ty, split_all(lookup_vals(vals, leaf.path)->0))
                    } else {
                        encoded_leaf(leaf.ty, lookup_vals(vals, leaf.path)->0[0])
                    }) is None {
                        None
                    } else {
                        compose_missing(rest, vals, reg, depth)
                    }
                } else if arg.optional && !any_supplied(leaves, vals) {
                    compose_missing(rest, vals, reg, depth)
                } else {
                    match complex_spec(
                        leaves,
                        vals,
                        Seq::<char>::empty(),
                        Seq::<(TypeDescriptor, Seq<Seq<char>>)>::empty(),
                    ) {
                        Some(b) => compose_missing(rest, vals, reg, depth),
                        None => complex_missing(
                            leaves,
                            vals,
                            Seq::<char>::empty(),
                            Seq::<(TypeDescriptor, Seq<Seq<char>>)>::empty(),
                        ),
                    }
                }
            },
            None => None,
        }
    }
}

/// Whether any leaf of the run received at least one value.
fn any_leaf_supplied(parts: &Vec<CommandArg>, matches: &ArgValues) -> (r: bool)
    ensures
        r == any_supplied(parts.deep_view(), matches.entries.deep_view()),
{
    let ghost leaves = parts.deep_view();
    let ghost vals = matches.entries.deep_view();
    let mut k: usize = 0;
    while k < parts.len()
        invariant
            0 <= k <= parts@.len(),
            leaves =~= parts.deep_view(),
            leaves.len() == parts@.len(),
            vals =~~= matches.entries.deep_view(),
            forall|j: int| 0 <= j < k ==> !supplied_at(vals, (#[trigger] leaves[j]).path),
        decreases parts@.len() - k,
    {
        proof {
            assert(parts.deep_view()[k as int] == parts@[k as int].deep_view());
        }
        let supplied = matches.get(&parts[k].name);
        let has_values = match &supplied {
            Some(vs) => vs.len() > 0,
            None => false,
        };
        if has_values {
            proof {
                assert(supplied_at(vals, leaves[k as int].path));
            }
            return true;
        }
        k = k + 1;
    }
    false
}

/// Compose every supplied argument of an entry point into its named
/// binary payload, in declaration order.  A single-leaf argument encodes
/// its value directly (a repeated one with a 4-byte count before its
/// comma-separated elements); a composite argument goes through the
/// group-aware walk; an optional argument with no values contributes no
/// payload; a required leaf with no value is an error.
#[verifier::loop_isolation(false)]
pub fn compose(entry_point: &Entrypoint, args: &ArgValues, types: &CustomTypeSet) -> (r: Result<
    Vec<(String, Vec<u8>)>,
    Error,
>)
    ensures
        r is Ok <==> compose_spec(
            entry_point.arguments.deep_view(),
            args.entries.deep_view(),
            types.entries@,
            MAX_TYPE_DEPTH as int,
        ) is Some,
        r matches Ok(v) ==> Some(v.deep_view()) == compose_spec(
            entry_point.arguments.deep_view(),
            args.entries.deep_view(),
            types.entries@,
            MAX_TYPE_DEPTH as int,
        ),
        r matches Err(e) ==> (e matches Error::MissingRequiredValue(q) ==> (lookup_vals(
            args.entries.deep_view(),
            q@,
        ) is None || lookup_vals(args.entries.deep_view(), q@)->0.len() == 0)),
        compose_missing(
            entry_point.arguments.deep_view(),
            args.entries.deep_view(),
            types.entries@,
            MAX_TYPE_DEPTH as int,
        ) matches Some(p) ==> (r matches Err(e) && e matches Error::MissingRequiredValue(q)
            && q@ == p),
{
    let ghost argms = entry_point.arguments.deep_view();
    let ghost vals = args.entries.deep_view();
    let ghost reg = types.entries@;
    let mut out: Vec<(String, Vec<u8>)> = Vec::new();
    let mut i: usize = 0;
    proof {
        assert(argms.skip(0) =~= argms);
        if compose_spec(argms, vals, reg, MAX_TYPE_DEPTH as int) is Some {
            let rest = compose_spec(argms, vals, reg, MAX_TYPE_DEPTH as int)->0;
            assert(out.deep_view() + rest =~~= rest);
        }
    }
    while i < entry_point.arguments.len()
        invariant
            0 <= i <= argms.len(),
            argms.len() == entry_point.arguments@.len(),
            argms =~= entry_point.arguments.deep_view(),
            vals =~~= args.entries.deep_view(),
            reg == types.entries@,
            (compose_spec(argms.skip(i as int), vals, reg, MAX_TYPE_DEPTH as int) matches Some(
                rest,
            ) ==> compose_spec(argms, vals, reg, MAX_TYPE_DEPTH as int) == Some(
                out.deep_view() + rest,
            )),
            (compose_spec(argms.skip(i as int), vals, reg, MAX_TYPE_DEPTH as int) is None
                ==> compose_spec(argms, vals, reg, MAX_TYPE_DEPTH as int) is None),
            compose_missing(argms, vals, reg, MAX_TYPE_DEPTH as int) == compose_missing(
                argms.skip(i as int),
                vals,
                reg,
                MAX_TYPE_DEPTH as int,
            ),
        decreases argms.len() - i,
    {
        proof {
            assert(entry_point.arguments.deep_view()[i as int]
                == entry_point.arguments@[i as int].deep_view());
            assert(argms.skip(i as int)[0] == argms[i as int]);
            assert(argms.skip(i as int).drop_first() =~= argms.skip(i + 1));
        }
        let arg = &entry_point.arguments[i];
        let parts = match flat_arg(arg, types, false) {
            Ok(v) => v,
            Err(e) => {
                return Err(e);
            },
        };
        let ghost old_deep = out.deep_view();
        if parts.len() == 1 {
            proof {
                assert(parts.deep_view()[0] == parts@[0]@);
            }
            let supplied = args.get(&parts[0].name);
            let has_values = match &supplied {
                Some(vs) => vs.len() > 0,
                None => false,
            };
            if !has_values {
                if parts[0].required {
                    return Err(Error::MissingRequiredValue(parts[0].name.clone()));
                }
            } else {
                let vs: &Vec<String> = match supplied {
                    Some(vs) => vs,
                    None => vstd::pervasive::unreached(),
                };
                let bytes = if parts[0].is_list_element {
                    let flattened = split_all_values(vs);
                    match crate::types::vec_into_bytes_parts(&parts[0].ty, &flattened) {
                        Ok(b) => b,
                        Err(e) => {
                            return Err(e);
                        },
                    }
                } else {
                    proof {
                        assert(vs.deep_view()[0] == vs@[0]@);
                    }
                    match crate::types::into_bytes(&parts[0].ty, vs[0].as_str()) {
                        Ok(b) => b,
                        Err(e) => {
                            return Err(e);
                        },
                    }
                };
                let ghost entry = (argms[i as int].name, bytes@);
                out.push((arg.name.clone(), bytes));
                proof {
                    assert(out.deep_view() =~~= old_deep.push(entry));
                    assert(old_deep.push(entry) =~~= old_deep + seq![entry]);
                }
            }
        } else {
            let any_values = any_leaf_supplied(&parts, args);
            if !any_values && arg.optional {
                // A wholly absent optional composite contributes nothing:
                // no entry is emitted under its name.
            } else {
                let bytes = match build_complex_arg(&parts, args) {
                    Ok(b) => b,
                    Err(e) => {
                        return Err(e);
                    },
                };
                let ghost entry = (argms[i as int].name, bytes@);
                out.push((arg.name.clone(), bytes));
                proof {
                    assert(out.deep_view() =~~= old_deep.push(entry));
                    assert(old_deep.push(entry) =~~= old_deep + seq![entry]);
                }
            }
        }
        proof {
            if compose_spec(argms.skip(i + 1), vals, reg, MAX_TYPE_DEPTH as int) is Some {
                let rest2 = compose_spec(argms.skip(i + 1), vals, reg, MAX_TYPE_DEPTH as int)->0;
                assert(old_deep + (seq![(argms[i as int].name, out@.last().1@)] + rest2)
                    =~~= (old_deep + seq![(argms[i as int].name, out@.last().1@)]) + rest2);
            }
        }
        i = i + 1;
    }
    proof {
        assert(argms.skip(argms.len() as int) =~= Seq::<ArgModel>::empty());
        assert(out.deep_view() + Seq::<(Seq<char>, Seq<u8>)>::empty() =~~= out.deep_view());
    }
    Ok(out)
}


/// One rendered struct field: two spaces, the quoted field name, a colon,
/// and the quoted decoded value.
pub open spec fn field_entry(name: Seq<char>, value: Seq<char>) -> Seq<char> {
    seq![' ', ' ', '"'] + name + seq!['"', ':', ' ', '"'] + value + seq!['"']
}

/// The object rendering of decoded struct fields, one per line.
pub open spec fn render_struct(entries: Seq<Seq<char>>) -> Seq<char> {
    if entries.len() == 0 {
        seq!['{', '}']
    } else {
        seq!['{', '\n'] + crate::types::join_texts(entries, seq![',', '\n']) + seq!['\n', '}']
    }
}

/// The first variant declared with discriminant `d`.
pub open spec fn variant_with(variants: Seq<EnumVariant>, d: int) -> Option<int>
    decreases variants.len(),
{
    if variants.len() == 0 {
        None
    } else if variants[0].discriminant == d {
        Some(0int)
    } else {
        match variant_with(variants.drop_first(), d) {
            Some(i) => Some(i + 1),
            None => None,
        }
    }
}

/// A found index points at the first variant carrying the discriminant.
pub proof fn lemma_variant_with(variants: Seq<EnumVariant>, d: int)
    ensures
        variant_with(variants, d) matches Some(i) ==> (0 <= i < variants.len()
            && variants[i].discriminant == d && (forall|j: int|
            0 <= j < i ==> (#[trigger] variants[j].discriminant) != d)),
        variant_with(variants, d) is None ==> (forall|j: int|
            0 <= j < variants.len() ==> (#[trigger] variants[j].discriminant) != d),
    decreases variants.len(),
{
    if variants.len() > 0 {
        let rest = variants.drop_first();
        lemma_variant_with(rest, d);
        if variants[0].discriminant != d {
            assert(forall|j: int| 1 <= j < variants.len() ==> (
            #[trigger] variants[j].discriminant) == rest[j - 1].discriminant);
        }
    }
}

/// The payload head names an enum of the registry whose declared
/// variants all differ from the leading discriminant byte.
pub open spec fn enum_discriminant_missing(
    ty: TypeDescriptor,
    b: Seq<u8>,
    reg: Seq<CustomType>,
) -> bool {
    &&& ty matches TypeDescriptor::Custom(n)
    &&& find_in(reg, n@) matches Some(i)
    &&& reg[i] matches CustomType::Enum { variants, .. }
    &&& b.len() >= 1
    &&& variant_with(variants@, b[0] as int) is None
}

/// The text and consumed byte count a payload decodes to against the
/// registry: a struct decodes each member in declared order into a
/// rendered object; an enum decodes one discriminant byte into the
/// matching variant's name, consuming no payload; a list decodes a 4-byte
/// count of elements; every other descriptor is a leaf.
pub open spec fn decode_value_spec(
    ty: TypeDescriptor,
    b: Seq<u8>,
    reg: Seq<CustomType>,
    depth: int,
) -> Option<(Seq<char>, int)>
    decreases depth, ty.height(), 0nat,
{
    match ty {
        TypeDescriptor::Custom(n) => match find_in(reg, n@) {
            Some(i) => {
                if depth <= 0 {
                    None
                } else {
                    match reg[i] {
                        CustomType::Struct { members, .. } => match decode_fields_spec(
                            members@,
                            b,
                            reg,
                            depth - 1,
                        ) {
                            Some((entries, c)) => Some((render_struct(entries), c)),
                            None => None,
                        },
                        CustomType::Enum { variants, .. } => {
                            if b.len() >= 1 {
                                match variant_with(variants@, b[0] as int) {
                                    Some(j) => Some((variants@[j].name@, 1int)),
                                    None => None,
                                }
                            } else {
                                None
                            }
                        },
                    }
                }
            },
            None => None,
        },
        TypeDescriptor::List(inner) => {
            if b.len() >= 4 {
                let n = crate::numeric::u32_of_le(b.take(4));
                match decode_velems_spec(*inner, b.skip(4), n, reg, depth) {
                    Some((ts, c)) => Some((crate::types::render_list(ts), 4 + c)),
                    None => None,
                }
            } else {
                None
            }
        },
        _ => crate::types::decoded_leaf(ty, b),
    }
}

/// The rendered fields of a struct's members, decoded in declared order,
/// with the byte count they consume together.
pub open spec fn decode_fields_spec(
    members: Seq<StructMember>,
    b: Seq<u8>,
    reg: Seq<CustomType>,
    depth: int,
) -> Option<(Seq<Seq<char>>, int)>
    decreases depth, 0nat, members.len() + 1,
{
    if members.len() == 0 {
        Some((Seq::<Seq<char>>::empty(), 0int))
    } else if depth <= 0 {
        None
    } else {
        match decode_value_spec(members[0].ty, b, reg, depth - 1) {
            Some((t, c)) => match decode_fields_spec(members.drop_first(), b.skip(c), reg, depth) {
                Some((ts, cs)) => Some(
                    (seq![field_entry(members[0].name@, t)] + ts, c + cs),
                ),
                None => None,
            },
            None => None,
        }
    }
}

/// The texts of `n` consecutive elements decoded against the registry,
/// with the byte count they consume together.
pub open spec fn decode_velems_spec(
    ty: TypeDescriptor,
    b: Seq<u8>,
    n: int,
    reg: Seq<CustomType>,
    depth: int,
) -> Option<(Seq<Seq<char>>, int)>
    decreases depth, ty.height(), n + 1,
{
    if n <= 0 {
        Some((Seq::<Seq<char>>::empty(), 0int))
    } else {
        match decode_value_spec(ty, b, reg, depth) {
            Some((t, c)) => match decode_velems_spec(ty, b.skip(c), n - 1, reg, depth) {
                Some((ts, cs)) => Some((seq![t] + ts, c + cs)),
                None => None,
            },
            None => None,
        }
    }
}

/// For an element type that needs no registry, the registry-aware element
/// decoder and the leaf codec's element decoder agree.
pub proof fn lemma_velems_is_leaf_elems(
    ty: TypeDescriptor,
    b: Seq<u8>,
    n: int,
    reg: Seq<CustomType>,
    depth: int,
)
    requires
        !(ty matches TypeDescriptor::Custom(_)),
        !(ty matches TypeDescriptor::List(_)),
    ensures
        decode_velems_spec(ty, b, n, reg, depth) == crate::types::decoded_elems(ty, b, n),
    decreases n,
{
    if n > 0 {
        assert(decode_value_spec(ty, b, reg, depth) == crate::types::decoded_leaf(ty, b));
        if crate::types::decoded_leaf(ty, b) is Some {
            let (t, c) = crate::types::decoded_leaf(ty, b)->0;
            lemma_velems_is_leaf_elems(ty, b.skip(c), n - 1, reg, depth);
            assert(decode_velems_spec(ty, b.skip(c), n - 1, reg, depth)
                == crate::types::decoded_elems(ty, b.skip(c), n - 1));
        }
    }
}

/// The list layout round trip through the registry-aware decoder, for a
/// leaf element type: encoding `n` canonical element texts and decoding
/// the run back, with any suffix appended, recovers the same `n` texts in
/// order and consumes exactly the encoded bytes.
pub proof fn lemma_decode_list_round_trip(
    ty: TypeDescriptor,
    texts: Seq<Seq<char>>,
    suffix: Seq<u8>,
    reg: Seq<CustomType>,
    depth: int,
)
    requires
        forall|i: int|
            0 <= i < texts.len() ==> crate::types::round_trip_text(ty, #[trigger] texts[i]),
        texts.len() <= u32::MAX,
        !(ty matches TypeDescriptor::Custom(_)),
        !(ty matches TypeDescriptor::List(_)),
    ensures
        crate::types::encoded_seq(ty, texts) is Some,
        decode_value_spec(
            TypeDescriptor::List(Box::new(ty)),
            crate::types::encoded_seq(ty, texts)->0 + suffix,
            reg,
            depth,
        ) == Some(
            (
                crate::types::render_list(texts),
                crate::types::encoded_seq(ty, texts)->0.len() as int,
            ),
        ),
{
    crate::types::lemma_list_round_trip(ty, texts, suffix);
    let enc = crate::types::encoded_seq(ty, texts)->0;
    let b = enc + suffix;
    assert(b.take(4) =~= enc.take(4));
    crate::numeric::lemma_u32_le_roundtrip(texts.len() as int);
    assert(b.skip(4) =~= enc.skip(4) + suffix);
    lemma_velems_is_leaf_elems(ty, b.skip(4), texts.len() as int, reg, depth);
}

/// A registry-aware decode never consumes more bytes than it was given.
pub proof fn lemma_decode_value_consumed(
    ty: TypeDescriptor,
    b: Seq<u8>,
    reg: Seq<CustomType>,
    depth: int,
)
    ensures
        decode_value_spec(ty, b, reg, depth) matches Some((t, c)) ==> 0 <= c <= b.len(),
    decreases depth, ty.height(), 0nat,
{
    match ty {
        TypeDescriptor::Custom(n) => {
            if find_in(reg, n@) is Some && depth > 0 {
                let i = find_in(reg, n@)->0;
                lemma_find_in(reg, n@);
                match reg[i] {
                    CustomType::Struct { members, .. } => {
                        lemma_decode_fields_consumed(members@, b, reg, depth - 1);
                    },
                    CustomType::Enum { .. } => {},
                }
            }
        },
        TypeDescriptor::List(inner) => {
            if b.len() >= 4 {
                lemma_decode_velems_consumed(
                    *inner,
                    b.skip(4),
                    crate::numeric::u32_of_le(b.take(4)),
                    reg,
                    depth,
                );
            }
        },
        _ => {
            crate::types::lemma_decoded_consumed(ty, b);
        },
    }
}

/// A run of field decodes never consumes more bytes than given.
pub proof fn lemma_decode_fields_consumed(
    members: Seq<StructMember>,
    b: Seq<u8>,
    reg: Seq<CustomType>,
    depth: int,
)
    ensures
        decode_fields_spec(members, b, reg, depth) matches Some((ts, c)) ==> 0 <= c <= b.len(),
    decreases depth, 0nat, members.len() + 1,
{
    if members.len() > 0 && depth > 0 {
        lemma_decode_value_consumed(members[0].ty, b, reg, depth - 1);
        if decode_value_spec(members[0].ty, b, reg, depth - 1) is Some {
            let (t, c) = decode_value_spec(members[0].ty, b, reg, depth - 1)->0;
            lemma_decode_fields_consumed(members.drop_first(), b.skip(c), reg, depth);
        }
    }
}

/// A run of element decodes never consumes more bytes than given.
pub proof fn lemma_decode_velems_consumed(
    ty: TypeDescriptor,
    b: Seq<u8>,
    n: int,
    reg: Seq<CustomType>,
    depth: int,
)
    ensures
        decode_velems_spec(ty, b, n, reg, depth) matches Some((ts, c)) ==> 0 <= c <= b.len(),
    decreases depth, ty.height(), n + 1,
{
    if n > 0 {
        lemma_decode_value_consumed(ty, b, reg, depth);
        if decode_value_spec(ty, b, reg, depth) is Some {
            let (t, c) = decode_value_spec(ty, b, reg, depth)->0;
            lemma_decode_velems_consumed(ty, b.skip(c), n - 1, reg, depth);
        }
    }
}

/// Decode one payload against the registry: the rendered text and the
/// count of bytes consumed; the remainder is the rest of `bytes`.
/// Succeeds exactly where [`decode_value_spec`] accepts the bytes, and an
/// unknown `Custom` reference reports the name it could not resolve.
pub fn decode(bytes: &[u8], ty: &TypeDescriptor, types: &CustomTypeSet) -> (r: Result<
    (String, usize),
    Error,
>)
    ensures
        r is Ok <==> decode_value_spec(*ty, bytes@, types.entries@, MAX_TYPE_DEPTH as int)
            is Some,
        r matches Ok(p) ==> decode_value_spec(*ty, bytes@, types.entries@, MAX_TYPE_DEPTH as int)
            == Some((p.0@, p.1 as int)),
        *ty matches TypeDescriptor::Custom(n) ==> (find_in(types.entries@, n@) is None ==> (
        r matches Err(e) && e matches Error::UnknownType(m) && m@ == n@)),
        (MAX_TYPE_DEPTH > 0 && enum_discriminant_missing(*ty, bytes@, types.entries@)) ==> (
        r matches Err(e) && e matches Error::VariantNotFound(d) && d as int == bytes@[0] as int),
        (!(*ty matches TypeDescriptor::Custom(_)) && !(*ty matches TypeDescriptor::List(_))) ==> (
        r matches Err(e) ==> crate::types::fault_matches(
            e,
            crate::types::decode_fault(*ty, bytes@),
        )),
{
    proof {
        assert(MAX_TYPE_DEPTH > 0);
        match ty {
            TypeDescriptor::Custom(n) => {
                lemma_find_in(types.entries@, n@);
            },
            _ => {},
        }
    }
    match decode_value_chars(ty, bytes, types, MAX_TYPE_DEPTH) {
        Ok((t, c)) => Ok((string_of(t.as_slice()), c)),
        Err(e) => Err(e),
    }
}

/// Decode one payload against the registry, as characters.
#[verifier::loop_isolation(false)]
fn decode_value_chars(
    ty: &TypeDescriptor,
    b: &[u8],
    types: &CustomTypeSet,
    depth: u32,
) -> (r: Result<(Vec<char>, usize), Error>)
    ensures
        r is Ok <==> decode_value_spec(*ty, b@, types.entries@, depth as int) is Some,
        r matches Ok(p) ==> decode_value_spec(*ty, b@, types.entries@, depth as int) == Some(
            (p.0@, p.1 as int),
        ),
        *ty matches TypeDescriptor::Custom(n) ==> (find_in(types.entries@, n@) is None ==> (
        r matches Err(e) && e matches Error::UnknownType(m) && m@ == n@)),
        (depth > 0 && enum_discriminant_missing(*ty, b@, types.entries@)) ==> (r matches Err(e)
            && e matches Error::VariantNotFound(d) && d as int == b@[0] as int),
        (!(*ty matches TypeDescriptor::Custom(_)) && !(*ty matches TypeDescriptor::List(_))) ==> (
        r matches Err(e) ==> crate::types::fault_matches(
            e,
            crate::types::decode_fault(*ty, b@),
        )),
    decreases depth, ty.height(), 0nat,
{
    match ty {
        TypeDescriptor::Custom(n) => {
            match find_type(types, n) {
                Some(entry) => {
                    proof {
                        lemma_find_in(types.entries@, n@);
                    }
                    if depth == 0 {
                        return Err(Error::Formatting(n.clone()));
                    }
                    match entry {
                        CustomType::Struct { members, .. } => {
                            match decode_fields(members, b, types, depth - 1) {
                                Ok((entries, c)) => {
                                    let rendered = render_struct_exec(&entries);
                                    Ok((rendered, c))
                                },
                                Err(e) => Err(e),
                            }
                        },
                        CustomType::Enum { variants, .. } => {
                            if b.len() < 1 {
                                return Err(Error::DeserializationError);
                            }
                            let d = b[0];
                            proof {
                                lemma_variant_with(variants@, d as int);
                            }
                            let mut j: usize = 0;
                            while j < variants.len()
                                invariant
                                    0 <= j <= variants@.len(),
                                    forall|k: int|
                                        0 <= k < j ==> (#[trigger] variants@[
                                        k].discriminant) != d as int,
                                decreases variants@.len() - j,
                            {
                                if variants[j].discriminant == d as u16 {
                                    proof {
                                        lemma_variant_first(variants@, d as int, j as int);
                                    }
                                    return Ok((chars_of(variants[j].name.as_str()), 1));
                                }
                                j = j + 1;
                            }
                            Err(Error::VariantNotFound(d as u16))
                        },
                    }
                },
                None => Err(Error::UnknownType(n.clone())),
            }
        },
        TypeDescriptor::List(inner) => {
            if b.len() < 4 {
                return Err(Error::DeserializationError);
            }
            let n = crate::numeric::read_u32_le(b[0], b[1], b[2], b[3]);
            proof {
                assert(b@.take(4) =~= seq![b@[0], b@[1], b@[2], b@[3]]);
            }
            let rest = vstd::slice::slice_subrange(b, 4, b.len());
            proof {
                assert(rest@ =~= b@.skip(4));
            }
            match decode_velems(&**inner, rest, n, types, depth) {
                Ok((texts, c)) => {
                    proof {
                        lemma_decode_velems_consumed(
                            **inner,
                            b@.skip(4),
                            n as int,
                            types.entries@,
                            depth as int,
                        );
                    }
                    Ok((crate::types::render_list_exec(&texts), 4 + c))
                },
                Err(e) => Err(e),
            }
        },
        _ => crate::types::from_bytes_chars(ty, b),
    }
}

/// Decode and render a struct's members in declared order.
#[verifier::loop_isolation(false)]
fn decode_fields(
    members: &Vec<StructMember>,
    b: &[u8],
    types: &CustomTypeSet,
    depth: u32,
) -> (r: Result<(Vec<Vec<char>>, usize), Error>)
    ensures
        r is Ok <==> decode_fields_spec(members@, b@, types.entries@, depth as int) is Some,
        r matches Ok(p) ==> decode_fields_spec(members@, b@, types.entries@, depth as int) == Some(
            (p.0.deep_view(), p.1 as int),
        ),
    decreases depth, 0nat, members@.len() + 1,
{
    let ghost all = members@;
    let mut entries: Vec<Vec<char>> = Vec::new();
    let mut off: usize = 0;
    let mut i: usize = 0;
    proof {
        assert(b@.skip(0) =~= b@);
        assert(all.skip(0) =~= all);
        if decode_fields_spec(all, b@, types.entries@, depth as int) is Some {
            let (ts, c) = decode_fields_spec(all, b@, types.entries@, depth as int)->0;
            assert(entries.deep_view() + ts =~~= ts);
        }
    }
    while i < members.len()
        invariant
            0 <= i <= all.len(),
            all.len() == members@.len(),
            0 <= off <= b@.len(),
            (decode_fields_spec(all.skip(i as int), b@.skip(off as int), types.entries@, depth
                as int) matches Some(p) ==> decode_fields_spec(
                all,
                b@,
                types.entries@,
                depth as int,
            ) == Some((entries.deep_view() + p.0, off + p.1))),
            (decode_fields_spec(all.skip(i as int), b@.skip(off as int), types.entries@, depth
                as int) is None ==> decode_fields_spec(
                all,
                b@,
                types.entries@,
                depth as int,
            ) is None),
        decreases all.len() - i,
    {
        proof {
            assert(all.skip(i as int)[0] == all[i as int]);
            assert(all.skip(i as int).drop_first() =~= all.skip(i + 1));
        }
        if depth == 0 {
            return Err(Error::DeserializationError);
        }
        let cur = vstd::slice::slice_subrange(b, off, b.len());
        proof {
            assert(cur@ =~= b@.skip(off as int));
        }
        let (t, c) = match decode_value_chars(&members[i].ty, cur, types, depth - 1) {
            Ok(p) => p,
            Err(e) => {
                return Err(e);
            },
        };
        proof {
            lemma_decode_value_consumed(
                all[i as int].ty,
                b@.skip(off as int),
                types.entries@,
                depth - 1,
            );
            assert(b@.skip(off as int).skip(c as int) =~= b@.skip(off + c));
        }
        let mut entry: Vec<char> = Vec::new();
        entry.push(' ');
        entry.push(' ');
        entry.push('"');
        let mut name_chars = chars_of(members[i].name.as_str());
        entry.append(&mut name_chars);
        entry.push('"');
        entry.push(':');
        entry.push(' ');
        entry.push('"');
        let mut value_chars = t;
        entry.append(&mut value_chars);
        entry.push('"');
        proof {
            let (tt, cc) = decode_value_spec(
                all[i as int].ty,
                b@.skip(off as int),
                types.entries@,
                depth - 1,
            )->0;
            assert(entry@ =~= field_entry(all[i as int].name@, tt));
        }
        let ghost old_deep = entries.deep_view();
        let ghost ev = entry@;
        entries.push(entry);
        proof {
            assert(entries.deep_view() =~~= old_deep.push(ev));
            if decode_fields_spec(
                all.skip(i + 1),
                b@.skip(off + c),
                types.entries@,
                depth as int,
            ) is Some {
                let (ts2, cs2) = decode_fields_spec(
                    all.skip(i + 1),
                    b@.skip(off + c),
                    types.entries@,
                    depth as int,
                )->0;
                assert(old_deep + (seq![ev] + ts2) =~~= old_deep.push(ev) + ts2);
            }
        }
        off = off + c;
        i = i + 1;
    }
    proof {
        assert(all.skip(all.len() as int) =~= Seq::<StructMember>::empty());
        assert(decode_fields_spec(
            Seq::<StructMember>::empty(),
            b@.skip(off as int),
            types.entries@,
            depth as int,
        ) == Some((Seq::<Seq<char>>::empty(), 0int)));
        assert(entries.deep_view() + Seq::<Seq<char>>::empty() =~~= entries.deep_view());
    }
    Ok((entries, off))
}

/// If nothing before `j` carries the discriminant and `j` does, the
/// search stops at `j`.
proof fn lemma_variant_first(variants: Seq<EnumVariant>, d: int, j: int)
    requires
        0 <= j < variants.len(),
        variants[j].discriminant == d,
        forall|k: int| 0 <= k < j ==> (#[trigger] variants[k].discriminant) != d,
    ensures
        variant_with(variants, d) == Some(j),
    decreases j,
{
    if j > 0 {
        lemma_variant_first(variants.drop_first(), d, j - 1);
    }
}

/// Render decoded struct fields as an object.
fn render_struct_exec(entries: &Vec<Vec<char>>) -> (r: Vec<char>)
    ensures
        r@ =~= render_struct(entries.deep_view()),
{
    if entries.len() == 0 {
        let mut out: Vec<char> = Vec::new();
        out.push('{');
        out.push('}');
        proof {
            assert(out@ =~= seq!['{', '}']);
        }
        return out;
    }
    let body = crate::types::join_exec(entries, &[',', '\n']);
    let mut out: Vec<char> = Vec::new();
    out.push('{');
    out.push('\n');
    let mut mid = body;
    out.append(&mut mid);
    out.push('\n');
    out.push('}');
    proof {
        assert((&[',', '\n'])@ =~= seq![',', '\n']);
        assert(out@ =~= render_struct(entries.deep_view()));
    }
    out
}

/// Decode `n` consecutive elements against the registry.
#[verifier::loop_isolation(false)]
fn decode_velems(
    ty: &TypeDescriptor,
    b: &[u8],
    n: u32,
    types: &CustomTypeSet,
    depth: u32,
) -> (r: Result<(Vec<Vec<char>>, usize), Error>)
    ensures
        r is Ok <==> decode_velems_spec(*ty, b@, n as int, types.entries@, depth as int) is Some,
        r matches Ok(p) ==> decode_velems_spec(*ty, b@, n as int, types.entries@, depth as int)
            == Some((p.0.deep_view(), p.1 as int)),
    decreases depth, ty.height(), n + 1,
{
    let mut texts: Vec<Vec<char>> = Vec::new();
    let mut off: usize = 0;
    let mut i: u32 = 0;
    proof {
        assert(b@.skip(0) =~= b@);
        if decode_velems_spec(*ty, b@, n as int, types.entries@, depth as int) is Some {
            let (ts, cs) = decode_velems_spec(*ty, b@, n as int, types.entries@, depth as int)->0;
            assert(texts.deep_view() + ts =~~= ts);
        }
    }
    while i < n
        invariant
            0 <= i <= n,
            0 <= off <= b@.len(),
            (decode_velems_spec(*ty, b@.skip(off as int), (n - i) as int, types.entries@, depth
                as int) matches Some(p) ==> decode_velems_spec(
                *ty,
                b@,
                n as int,
                types.entries@,
                depth as int,
            ) == Some((texts.deep_view() + p.0, off + p.1))),
            (decode_velems_spec(*ty, b@.skip(off as int), (n - i) as int, types.entries@, depth
                as int) is None ==> decode_velems_spec(
                *ty,
                b@,
                n as int,
                types.entries@,
                depth as int,
            ) is None),
        decreases n - i,
    {
        let cur = vstd::slice::slice_subrange(b, off, b.len());
        proof {
            assert(cur@ =~= b@.skip(off as int));
        }
        let (t, c) = match decode_value_chars(ty, cur, types, depth) {
            Ok(p) => p,
            Err(e) => {
                return Err(e);
            },
        };
        proof {
            lemma_decode_value_consumed(*ty, b@.skip(off as int), types.entries@, depth as int);
            assert(b@.skip(off as int).skip(c as int) =~= b@.skip(off + c));
        }
        let ghost old_deep = texts.deep_view();
        let ghost tv = t@;
        texts.push(t);
        proof {
            assert(texts.deep_view() =~~= old_deep.push(tv));
            if decode_velems_spec(
                *ty,
                b@.skip(off + c),
                (n - i - 1) as int,
                types.entries@,
                depth as int,
            ) is Some {
                let (ts2, cs2) = decode_velems_spec(
                    *ty,
                    b@.skip(off + c),
                    (n - i - 1) as int,
                    types.entries@,
                    depth as int,
                )->0;
                assert(old_deep + (seq![tv] + ts2) =~~= old_deep.push(tv) + ts2);
            }
        }
        off = off + c;
        i = i + 1;
    }
    proof {
        assert(decode_velems_spec(*ty, b@.skip(off as int), 0int, types.entries@, depth as int)
            == Some((Seq::<Seq<char>>::empty(), 0int)));
        assert(texts.deep_view() + Seq::<Seq<char>>::empty() =~~= texts.deep_view());
    }
    Ok((texts, off))
}

} // verus!