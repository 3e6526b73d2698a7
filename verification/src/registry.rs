//! Registration of schema definitions that the discovery step does not
//! emit on its own: the named record types the name-token contracts use.

use vstd::prelude::*;

use crate::schema::{
    find_in, lemma_find_in_push, with_entry, CustomType, CustomTypeSet, StructMember,
    TypeDescriptor,
};

verus! {

/// `e` is the definition of the name-mint record: a label, an owner key
/// and an expiration timestamp.
pub open spec fn is_name_mint_info(e: CustomType) -> bool {
    &&& e matches CustomType::Struct { name, members }
    &&& name@ == "NameMintInfo"@
    &&& members@.len() == 3
    &&& members@[0].name@ == "label"@ && members@[0].ty == TypeDescriptor::String
    &&& members@[1].name@ == "owner"@ && members@[1].ty == TypeDescriptor::Key
    &&& members@[2].name@ == "token_expiration"@ && members@[2].ty == TypeDescriptor::U64
}

/// `e` is the definition of the token-renewal record: a token identifier
/// and its new expiration timestamp.
pub open spec fn is_token_renewal_info(e: CustomType) -> bool {
    &&& e matches CustomType::Struct { name, members }
    &&& name@ == "TokenRenewalInfo"@
    &&& members@.len() == 2
    &&& members@[0].name@ == "token_id"@ && members@[0].ty == TypeDescriptor::String
    &&& members@[1].name@ == "token_expiration"@ && members@[1].ty == TypeDescriptor::U64
}

/// `e` is the definition of the name-token metadata record: a token hash,
/// an expiration timestamp and an optional resolver key.
pub open spec fn is_name_token_metadata(e: CustomType) -> bool {
    &&& e matches CustomType::Struct { name, members }
    &&& name@ == "NameTokenMetadata"@
    &&& members@.len() == 3
    &&& members@[0].name@ == "token_hash"@ && members@[0].ty == TypeDescriptor::String
    &&& members@[1].name@ == "expiration"@ && members@[1].ty == TypeDescriptor::U64
    &&& members@[2].name@ == "resolver"@ && members@[2].ty == TypeDescriptor::Option(
        Box::new(TypeDescriptor::Key),
    )
}

/// Register the record definitions the discovery step leaves out.  The
/// registry stays a set keyed by name: earlier entries are kept in place,
/// a definition is appended only where its name is new, lookups of other
/// names are untouched, and a registry that already carries all three
/// names is left exactly as it was.
pub fn register_missing_types(custom_types: &mut CustomTypeSet)
    ensures
        final(custom_types).entries@.take(old(custom_types).entries@.len() as int) == old(
            custom_types,
        ).entries@,
        find_in(final(custom_types).entries@, "NameMintInfo"@) is Some,
        find_in(final(custom_types).entries@, "TokenRenewalInfo"@) is Some,
        find_in(final(custom_types).entries@, "NameTokenMetadata"@) is Some,
        (find_in(old(custom_types).entries@, "NameMintInfo"@) is Some && find_in(
            old(custom_types).entries@,
            "TokenRenewalInfo"@,
        ) is Some && find_in(old(custom_types).entries@, "NameTokenMetadata"@) is Some)
            ==> final(custom_types).entries@ == old(custom_types).entries@,
        (find_in(old(custom_types).entries@, "NameMintInfo"@) is None && find_in(
            old(custom_types).entries@,
            "TokenRenewalInfo"@,
        ) is None && find_in(old(custom_types).entries@, "NameTokenMetadata"@) is None) ==> (
        final(custom_types).entries@.len() == old(custom_types).entries@.len() + 3
            && is_name_mint_info(
            final(custom_types).entries@[old(custom_types).entries@.len() as int],
        ) && is_token_renewal_info(
            final(custom_types).entries@[old(custom_types).entries@.len() as int + 1],
        ) && is_name_token_metadata(
            final(custom_types).entries@[old(custom_types).entries@.len() as int + 2],
        )),
        forall|n: Seq<char>|
            (n != "NameMintInfo"@ && n != "TokenRenewalInfo"@ && n != "NameTokenMetadata"@)
                ==> #[trigger] find_in(final(custom_types).entries@, n) == find_in(
                old(custom_types).entries@,
                n,
            ),
{
    let ghost s0 = custom_types.entries@;
    let mut mint_members: Vec<StructMember> = Vec::new();
    mint_members.push(
        StructMember {
            name: "label".to_owned(),
            description: String::new(),
            ty: TypeDescriptor::String,
        },
    );
    mint_members.push(
        StructMember {
            name: "owner".to_owned(),
            description: String::new(),
            ty: TypeDescriptor::Key,
        },
    );
    mint_members.push(
        StructMember {
            name: "token_expiration".to_owned(),
            description: String::new(),
            ty: TypeDescriptor::U64,
        },
    );
    let mint = CustomType::Struct { name: "NameMintInfo".to_owned(), members: mint_members };
    let ghost e1 = mint;
    proof {
        assert(is_name_mint_info(e1));
    }
    custom_types.insert(mint);
    let ghost s1 = custom_types.entries@;
    let mut renewal_members: Vec<StructMember> = Vec::new();
    renewal_members.push(
        StructMember {
            name: "token_id".to_owned(),
            description: String::new(),
            ty: TypeDescriptor::String,
        },
    );
    renewal_members.push(
        StructMember {
            name: "token_expiration".to_owned(),
            description: String::new(),
            ty: TypeDescriptor::U64,
        },
    );
    let renewal = CustomType::Struct {
        name: "TokenRenewalInfo".to_owned(),
        members: renewal_members,
    };
    let ghost e2 = renewal;
    proof {
        assert(is_token_renewal_info(e2));
    }
    custom_types.insert(renewal);
    let ghost s2 = custom_types.entries@;
    let mut metadata_members: Vec<StructMember> = Vec::new();
    metadata_members.push(
        StructMember {
            name: "token_hash".to_owned(),
            description: String::new(),
            ty: TypeDescriptor::String,
        },
    );
    metadata_members.push(
        StructMember {
            name: "expiration".to_owned(),
            description: String::new(),
            ty: TypeDescriptor::U64,
        },
    );
    metadata_members.push(
        StructMember {
            name: "resolver".to_owned(),
            description: String::new(),
            ty: TypeDescriptor::Option(Box::new(TypeDescriptor::Key)),
        },
    );
    let metadata = CustomType::Struct {
        name: "NameTokenMetadata".to_owned(),
        members: metadata_members,
    };
    let ghost e3 = metadata;
    proof {
        assert(is_name_token_metadata(e3));
    }
    custom_types.insert(metadata);
    let ghost s3 = custom_types.entries@;
    proof {
        lemma_distinct_registered_names();
        lemma_register_step(s0, e1, "NameMintInfo"@, "TokenRenewalInfo"@, "NameTokenMetadata"@);
        lemma_register_step(s1, e2, "TokenRenewalInfo"@, "NameMintInfo"@, "NameTokenMetadata"@);
        lemma_register_step(s2, e3, "NameTokenMetadata"@, "NameMintInfo"@, "TokenRenewalInfo"@);
        assert(s3.take(s0.len() as int) =~= s0) by {
            if s1 == s0.push(e1) {
                assert(s1.take(s0.len() as int) =~= s0);
            }
            assert(s2.take(s1.len() as int) =~= s1);
            assert(s3.take(s2.len() as int) =~= s2);
            assert(s2.take(s0.len() as int) =~= s1.take(s0.len() as int));
            assert(s3.take(s0.len() as int) =~= s2.take(s0.len() as int));
        }
        if find_in(s0, "NameMintInfo"@) is None && find_in(s0, "TokenRenewalInfo"@) is None
            && find_in(s0, "NameTokenMetadata"@) is None {
            assert(s1 == s0.push(e1) && s2 == s1.push(e2) && s3 == s2.push(e3));
            assert(s3[s0.len() as int] == e1);
            assert(s3[s0.len() as int + 1] == e2);
            assert(s3[s0.len() as int + 2] == e3);
        }
        assert forall|n: Seq<char>|
            (n != "NameMintInfo"@ && n != "TokenRenewalInfo"@ && n != "NameTokenMetadata"@)
                implies #[trigger] find_in(s3, n) == find_in(s0, n) by {
            lemma_find_in_push(s0, e1, n);
            lemma_find_in_push(s1, e2, n);
            lemma_find_in_push(s2, e3, n);
        }
    }
}

/// The three registered names differ pairwise.
proof fn lemma_distinct_registered_names()
    ensures
        "NameMintInfo"@ != "TokenRenewalInfo"@,
        "NameMintInfo"@ != "NameTokenMetadata"@,
        "TokenRenewalInfo"@ != "NameTokenMetadata"@,
{
    reveal_strlit("NameMintInfo");
    reveal_strlit("TokenRenewalInfo");
    reveal_strlit("NameTokenMetadata");
    assert("NameMintInfo"@.len() == 12);
    assert("TokenRenewalInfo"@.len() == 16);
    assert("NameTokenMetadata"@.len() == 17);
}

/// One deduplicating registration step: the stated name resolves
/// afterwards, and the other two names' lookups are untouched.
proof fn lemma_register_step(
    s: Seq<CustomType>,
    e: CustomType,
    own: Seq<char>,
    other1: Seq<char>,
    other2: Seq<char>,
)
    requires
        e.spec_name() == own,
        own != other1,
        own != other2,
    ensures
        find_in(with_entry(s, e), own) is Some,
        find_in(with_entry(s, e), other1) == find_in(s, other1),
        find_in(with_entry(s, e), other2) == find_in(s, other2),
        with_entry(s, e).take(s.len() as int) == s,
        find_in(s, own) is Some ==> with_entry(s, e) == s,
        find_in(s, own) is None ==> (with_entry(s, e) == s.push(e) && with_entry(s, e)[s.len()
            as int] == e),
{
    lemma_find_in_push(s, e, own);
    lemma_find_in_push(s, e, other1);
    lemma_find_in_push(s, e, other2);
    assert(s.push(e).take(s.len() as int) =~= s);
    assert(s.take(s.len() as int) =~= s);
}

} // verus!
