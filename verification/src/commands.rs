//! The commands a command-line session can dispatch to, and the lookups
//! the dispatcher performs: deploy scripts, user scenarios and contract
//! entry-point calls, each known by name.

use vstd::prelude::*;

verus! {

/// One registered command: the deploy script, a named scenario, or a
/// named contract's entry points.
#[derive(Debug)]
pub enum OdraCliCommand {
    Deploy(String),
    Scenario(String),
    Contract(String),
}

impl OdraCliCommand {
    /// Whether this is the deploy command.
    pub open spec fn spec_is_deploy(&self) -> bool {
        self matches OdraCliCommand::Deploy(_)
    }

    /// Whether this is the scenario named `name`.
    pub open spec fn is_scenario_named(&self, name: Seq<char>) -> bool {
        self matches OdraCliCommand::Scenario(n) && n@ == name
    }

    /// Whether this is the contract named `name`.
    pub open spec fn is_contract_named(&self, name: Seq<char>) -> bool {
        self matches OdraCliCommand::Contract(n) && n@ == name
    }
}

/// The index of the first scenario registered under `name`.
pub open spec fn first_scenario(commands: Seq<OdraCliCommand>, name: Seq<char>) -> Option<int>
    decreases commands.len(),
{
    if commands.len() == 0 {
        None
    } else if commands[0].is_scenario_named(name) {
        Some(0int)
    } else {
        match first_scenario(commands.drop_first(), name) {
            Some(i) => Some(i + 1),
            None => None,
        }
    }
}

/// The index of the first registered deploy command.
pub open spec fn first_deploy(commands: Seq<OdraCliCommand>) -> Option<int>
    decreases commands.len(),
{
    if commands.len() == 0 {
        None
    } else if commands[0].spec_is_deploy() {
        Some(0int)
    } else {
        match first_deploy(commands.drop_first()) {
            Some(i) => Some(i + 1),
            None => None,
        }
    }
}

/// The index of the first contract command registered under `name`.
pub open spec fn first_contract(commands: Seq<OdraCliCommand>, name: Seq<char>) -> Option<int>
    decreases commands.len(),
{
    if commands.len() == 0 {
        None
    } else if commands[0].is_contract_named(name) {
        Some(0int)
    } else {
        match first_contract(commands.drop_first(), name) {
            Some(i) => Some(i + 1),
            None => None,
        }
    }
}

/// A found index is in range and points at the first match.
proof fn lemma_first_scenario(commands: Seq<OdraCliCommand>, name: Seq<char>, i: int)
    requires
        0 <= i < commands.len(),
        commands[i].is_scenario_named(name),
        forall|j: int| 0 <= j < i ==> !(#[trigger] commands[j]).is_scenario_named(name),
    ensures
        first_scenario(commands, name) == Some(i),
    decreases i,
{
    if i > 0 {
        lemma_first_scenario(commands.drop_first(), name, i - 1);
    }
}

/// A found index is in range and points at the first deploy command.
proof fn lemma_first_deploy(commands: Seq<OdraCliCommand>, i: int)
    requires
        0 <= i < commands.len(),
        commands[i].spec_is_deploy(),
        forall|j: int| 0 <= j < i ==> !(#[trigger] commands[j]).spec_is_deploy(),
    ensures
        first_deploy(commands) == Some(i),
    decreases i,
{
    if i > 0 {
        lemma_first_deploy(commands.drop_first(), i - 1);
    }
}

/// A found index is in range and points at the first match.
proof fn lemma_first_contract(commands: Seq<OdraCliCommand>, name: Seq<char>, i: int)
    requires
        0 <= i < commands.len(),
        commands[i].is_contract_named(name),
        forall|j: int| 0 <= j < i ==> !(#[trigger] commands[j]).is_contract_named(name),
    ensures
        first_contract(commands, name) == Some(i),
    decreases i,
{
    if i > 0 {
        lemma_first_contract(commands.drop_first(), name, i - 1);
    }
}

/// Find the first scenario registered under `name`.
pub fn find_scenario<'a>(commands: &'a [OdraCliCommand], name: &String) -> (r: Option<
    &'a OdraCliCommand,
>)
    ensures
        r is Some <==> first_scenario(commands@, name@) is Some,
        r matches Some(c) ==> (c.is_scenario_named(name@) && *c == commands@[first_scenario(
            commands@,
            name@,
        )->0]),
{
    let mut i: usize = 0;
    while i < commands.len()
        invariant
            0 <= i <= commands@.len(),
            forall|j: int| 0 <= j < i ==> !(#[trigger] commands@[j]).is_scenario_named(name@),
        decreases commands@.len() - i,
    {
        match &commands[i] {
            OdraCliCommand::Scenario(n) => {
                if n.eq(name) {
                    proof {
                        lemma_first_scenario(commands@, name@, i as int);
                    }
                    return Some(&commands[i]);
                }
            },
            _ => {},
        }
        i = i + 1;
    }
    proof {
        lemma_first_scenario_range(commands@, name@);
    }
    None
}

/// A found first-scenario index is in range and matches.
proof fn lemma_first_scenario_range(commands: Seq<OdraCliCommand>, name: Seq<char>)
    ensures
        first_scenario(commands, name) matches Some(i) ==> (0 <= i < commands.len() && commands[
        i].is_scenario_named(name)),
    decreases commands.len(),
{
    if commands.len() > 0 {
        lemma_first_scenario_range(commands.drop_first(), name);
    }
}

/// Find the registered deploy command, if any.
pub fn find_deploy<'a>(commands: &'a [OdraCliCommand]) -> (r: Option<&'a OdraCliCommand>)
    ensures
        r is Some <==> first_deploy(commands@) is Some,
        r matches Some(c) ==> (c.spec_is_deploy() && *c == commands@[first_deploy(commands@)->0]),
{
    let mut i: usize = 0;
    while i < commands.len()
        invariant
            0 <= i <= commands@.len(),
            forall|j: int| 0 <= j < i ==> !(#[trigger] commands@[j]).spec_is_deploy(),
        decreases commands@.len() - i,
    {
        match &commands[i] {
            OdraCliCommand::Deploy(_) => {
                proof {
                    lemma_first_deploy(commands@, i as int);
                }
                return Some(&commands[i]);
            },
            _ => {},
        }
        i = i + 1;
    }
    proof {
        lemma_first_deploy_range(commands@);
    }
    None
}

/// A found first-deploy index is in range and matches.
proof fn lemma_first_deploy_range(commands: Seq<OdraCliCommand>)
    ensures
        first_deploy(commands) matches Some(i) ==> (0 <= i < commands.len()
            && commands[i].spec_is_deploy()),
    decreases commands.len(),
{
    if commands.len() > 0 {
        lemma_first_deploy_range(commands.drop_first());
    }
}

/// Find the first contract command registered under `name`.
pub fn find_contract<'a>(commands: &'a [OdraCliCommand], name: &String) -> (r: Option<
    &'a OdraCliCommand,
>)
    ensures
        r is Some <==> first_contract(commands@, name@) is Some,
        r matches Some(c) ==> (c.is_contract_named(name@) && *c == commands@[first_contract(
            commands@,
            name@,
        )->0]),
{
    let mut i: usize = 0;
    while i < commands.len()
        invariant
            0 <= i <= commands@.len(),
            forall|j: int| 0 <= j < i ==> !(#[trigger] commands@[j]).is_contract_named(name@),
        decreases commands@.len() - i,
    {
        match &commands[i] {
            OdraCliCommand::Contract(n) => {
                if n.eq(name) {
                    proof {
                        lemma_first_contract(commands@, name@, i as int);
                    }
                    return Some(&commands[i]);
                }
            },
            _ => {},
        }
        i = i + 1;
    }
    proof {
        lemma_first_contract_range(commands@, name@);
    }
    None
}

/// A found first-contract index is in range and matches.
proof fn lemma_first_contract_range(commands: Seq<OdraCliCommand>, name: Seq<char>)
    ensures
        first_contract(commands, name) matches Some(i) ==> (0 <= i < commands.len() && commands[
        i].is_contract_named(name)),
    decreases commands.len(),
{
    if commands.len() > 0 {
        lemma_first_contract_range(commands.drop_first(), name);
    }
}

} // verus!
