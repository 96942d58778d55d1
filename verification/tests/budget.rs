use trove::budget::ContextBudget;
use trove::hierarchy::MemoryLevel;
use trove::object::MemoryKind;

#[test]
fn budget_splits_by_percentages() {
    let b = ContextBudget::for_total(200_000);
    assert_eq!(b.total_tokens, 200_000);
    assert_eq!(b.working_memory, 20_000);
    assert_eq!(b.architecture, 30_000);
    assert_eq!(b.active_files, 40_000);
    assert_eq!(b.dependency_expansion, 40_000);
    assert_eq!(b.code, 40_000);
    assert_eq!(b.tool_output, 30_000);
}

#[test]
fn budget_slices_stay_within_total() {
    let b = ContextBudget::for_total(999);
    let sum = b.working_memory + b.architecture + b.active_files + b.dependency_expansion + b.code + b.tool_output;
    assert_eq!(sum, 994);
    assert!(sum <= b.total_tokens);
}

#[test]
fn token_estimate_is_a_quarter_of_bytes_plus_one() {
    assert_eq!(ContextBudget::estimate_tokens(""), 1);
    assert_eq!(ContextBudget::estimate_tokens("abcd"), 2);
    assert_eq!(ContextBudget::estimate_tokens("abcdefg"), 2);
    assert_eq!(ContextBudget::estimate_tokens("é"), 1);
}

#[test]
fn levels_have_labels_and_budgets() {
    assert_eq!(MemoryLevel::L0Working.label(), "L0 Working Memory");
    assert_eq!(MemoryLevel::L2Module.label(), "L2 Module Memory");
    assert_eq!(MemoryLevel::L6Repository.label(), "L6 Repository Memory");
    assert_eq!(MemoryLevel::L2Module.default_token_budget(), 40_000);
    assert_eq!(MemoryLevel::L6Repository.default_token_budget(), 10_000);
}

#[test]
fn kinds_map_to_levels_and_names() {
    assert_eq!(MemoryKind::Patch.level(), MemoryLevel::L5Historical);
    assert_eq!(MemoryKind::Symbol.level(), MemoryLevel::L1ActiveSymbols);
    assert_eq!(MemoryKind::Architecture.level(), MemoryLevel::L4Architecture);
    assert_eq!(MemoryKind::Patch.as_str(), "patch");
    assert_eq!(MemoryKind::ALL.len(), 9);
}
