use odra_cli::commands::{find_contract, find_deploy, find_scenario, OdraCliCommand};
use odra_cli::container::DeployedContractsContainer;
use odra_cli::registry::register_missing_types;
use odra_cli::schema::{CustomType, CustomTypeSet};

#[test]
fn registered_types_resolve_by_name() {
    let mut types = CustomTypeSet::new();
    register_missing_types(&mut types);
    assert_eq!(types.entries.len(), 3);
    // Registration is idempotent: the registry is a set keyed by name.
    register_missing_types(&mut types);
    assert_eq!(types.entries.len(), 3);
    let names: Vec<&str> = types
        .entries
        .iter()
        .map(|e| match e {
            CustomType::Struct { name, .. } => name.as_str(),
            CustomType::Enum { name, .. } => name.as_str(),
        })
        .collect();
    assert_eq!(
        names,
        vec!["NameMintInfo", "TokenRenewalInfo", "NameTokenMetadata"]
    );
}

#[test]
fn container_records_and_finds_contracts() {
    let mut container = DeployedContractsContainer::new("2024-01-01T00:00:00Z".to_string());
    assert_eq!(container.time(), "2024-01-01T00:00:00Z");
    container.add_contract(
        "NameToken".to_string(),
        "hash-56fef1f62d86ab68655c2a5d1c8b9ed8e60d5f7e59736e9d4c215a40b10f4a22".to_string(),
    );
    let found = container.address(&"NameToken".to_string()).unwrap();
    assert_eq!(
        found,
        "hash-56fef1f62d86ab68655c2a5d1c8b9ed8e60d5f7e59736e9d4c215a40b10f4a22"
    );
    assert!(container.address(&"Missing".to_string()).is_none());
    assert_eq!(container.contracts().len(), 1);
}

#[test]
fn command_lookups_find_first_match() {
    let commands = vec![
        OdraCliCommand::Deploy("deploy".to_string()),
        OdraCliCommand::Contract("NameToken".to_string()),
        OdraCliCommand::Scenario("mint_and_renew".to_string()),
    ];
    assert!(find_deploy(&commands).is_some());
    assert!(find_scenario(&commands, &"mint_and_renew".to_string()).is_some());
    assert!(find_scenario(&commands, &"missing".to_string()).is_none());
    assert!(find_contract(&commands, &"NameToken".to_string()).is_some());
    assert!(find_contract(&commands, &"Other".to_string()).is_none());
}
