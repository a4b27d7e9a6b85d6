use arc_dev_kit::{
    AbilityDescriptor, AbilityEntry, AbilityExecutionMode, AbilityIdentity, AbilityResult, AbilityRun,
    AbilityStep, ArcError, ExecutionOutcome, ExecutionStrategy, ModuleDescriptor, ModuleIdentity,
    ModuleRegistry, SkipReason,
};

fn module(id: &'static str, disabled: bool) -> ModuleDescriptor {
    ModuleDescriptor {
        identity: ModuleIdentity::new(id),
        display_name: id,
        description: "",
        version: "1.0",
        author: None,
        is_disabled: disabled,
        force_disabled_output: false,
        auto_disable_output: false,
    }
}

fn ability(
    module: &'static str,
    id: &'static str,
    priority: i32,
    enabled: bool,
    mode: AbilityExecutionMode,
) -> AbilityEntry {
    AbilityEntry {
        module_identity: ModuleIdentity::new(module),
        descriptor: AbilityDescriptor {
            identity: AbilityIdentity::new(id),
            display_name: id,
            description: "",
            priority,
            is_enabled_by_default: enabled,
            execution_mode: mode,
        },
        is_enabled: enabled,
    }
}

use AbilityExecutionMode::{Auto, Manual};

#[test]
fn defaults() {
    assert_eq!(ExecutionStrategy::default(), ExecutionStrategy::Parallel);
    assert_eq!(AbilityExecutionMode::default(), Auto);
}

#[test]
fn identities_compare_by_name() {
    assert_eq!(ModuleIdentity::new("net"), ModuleIdentity::new("net"));
    assert_ne!(ModuleIdentity::new("net"), ModuleIdentity::new("disk"));
    assert_eq!(AbilityIdentity::new("ping"), AbilityIdentity::new("ping"));
    assert_ne!(AbilityIdentity::new("ping"), AbilityIdentity::new("pong"));
}

#[test]
fn selection_filters_and_sorts_stably() {
    let entries = [
        ability("net", "a", 5, true, Auto),
        ability("disk", "b", 1, true, Auto),
        ability("net", "c", 1, true, Auto),
        ability("net", "d", 5, true, Auto),
        ability("net", "e", 0, false, Auto),
        ability("net", "f", 0, true, Manual),
        ability("net", "g", 1, true, Auto),
    ];
    let modules = [module("net", false), module("disk", false)];
    let picked = ModuleRegistry::select_abilities(&modules, &entries, &ModuleIdentity::new("net"), Auto);
    assert_eq!(picked, vec![2, 6, 0, 3]);
    let manual = ModuleRegistry::select_abilities(&modules, &entries, &ModuleIdentity::new("net"), Manual);
    assert_eq!(manual, vec![5]);
    let none = ModuleRegistry::select_abilities(&modules, &entries, &ModuleIdentity::new("gpu"), Auto);
    assert!(none.is_empty());
}

#[test]
fn disabled_module_runs_no_ability() {
    let entries = [ability("net", "a", 5, true, Auto), ability("disk", "b", 1, true, Auto)];
    let modules = [module("net", true), module("disk", false)];
    assert!(ModuleRegistry::select_abilities(&modules, &entries, &ModuleIdentity::new("net"), Auto).is_empty());
    assert_eq!(
        ModuleRegistry::select_abilities(&modules, &entries, &ModuleIdentity::new("disk"), Auto),
        vec![1]
    );
}

#[test]
fn selection_over_all_active_modules() {
    let modules = [module("net", false), module("off", true), module("disk", false)];
    let entries = [
        ability("disk", "d1", 3, true, Auto),
        ability("net", "n1", 3, true, Auto),
        ability("off", "o1", 0, true, Auto),
        ability("net", "n2", 1, true, Auto),
        ability("disk", "d2", 1, true, Auto),
    ];
    // Module order first (net, then disk), then a stable sort by priority.
    let picked = ModuleRegistry::select_all(&modules, &entries, Auto);
    assert_eq!(picked, vec![3, 4, 1, 0]);
}

#[test]
fn initialisation_and_shutdown_orders() {
    let modules = [module("a", false), module("b", true), module("c", false), module("d", false)];
    assert_eq!(ModuleRegistry::active_modules(&modules), vec![0, 2, 3]);
    assert_eq!(ModuleRegistry::shutdown_order(&modules), vec![3, 2, 0]);
    let id = ModuleIdentity::new("a");
    assert_eq!(ModuleRegistry::initialization_result(id, Ok(())).unwrap(), id);
    assert!(matches!(
        ModuleRegistry::initialization_result(id, Err(ArcError::PermissionDenied)),
        Err(ArcError::PermissionDenied)
    ));
}

#[test]
fn plans_for_each_strategy() {
    let prios = [1, 1, 2, 2, 2, 1];
    assert_eq!(ModuleRegistry::execution_plan(&prios, ExecutionStrategy::Parallel), vec![(0, 6)]);
    assert_eq!(
        ModuleRegistry::execution_plan(&prios, ExecutionStrategy::Sequential),
        vec![(0, 1), (1, 2), (2, 3), (3, 4), (4, 5), (5, 6)]
    );
    assert_eq!(
        ModuleRegistry::execution_plan(&prios, ExecutionStrategy::PriorityGrouped),
        vec![(0, 2), (2, 5), (5, 6)]
    );
    for strategy in [
        ExecutionStrategy::Parallel,
        ExecutionStrategy::Sequential,
        ExecutionStrategy::PriorityGrouped,
    ] {
        assert!(ModuleRegistry::execution_plan(&[], strategy).is_empty());
    }
    assert_eq!(
        ModuleRegistry::execution_plan(&[7], ExecutionStrategy::PriorityGrouped),
        vec![(0, 1)]
    );
}

fn descriptor(id: &'static str) -> AbilityDescriptor {
    AbilityDescriptor {
        identity: AbilityIdentity::new(id),
        display_name: id,
        description: "what it does",
        priority: 0,
        is_enabled_by_default: true,
        execution_mode: Auto,
    }
}

#[test]
fn reports_of_executions() {
    let m = ModuleIdentity::new("net");
    let ok = AbilityResult::from_execution(m, &descriptor("ping"), ExecutionOutcome::Completed(Ok(7u32)));
    assert!(ok.is_success());
    assert_eq!(ok.output(), Some(&7));
    assert!(ok.error().is_none());
    assert_eq!(ok.ability_identity, AbilityIdentity::new("ping"));
    assert_eq!(ok.module_identity, m);
    assert_eq!(ok.description, "what it does");

    let failed: AbilityResult<u32> = AbilityResult::from_execution(
        m,
        &descriptor("ping"),
        ExecutionOutcome::Completed(Err(ArcError::NotFound("host".into()))),
    );
    assert!(!failed.is_success());
    assert!(failed.output().is_none());
    assert!(matches!(failed.error(), Some(ArcError::NotFound(_))));

    let late: AbilityResult<u32> =
        AbilityResult::from_execution(m, &descriptor("扫描"), ExecutionOutcome::TimedOut(12));
    match late.error() {
        Some(ArcError::Timeout { operation, duration_secs }) => {
            assert_eq!(operation, "执行能力 扫描");
            assert_eq!(*duration_secs, 12);
        }
        _ => panic!("expected a timeout"),
    }
    assert_eq!(late.error().unwrap().message(), "操作超时 (12s): 执行能力 扫描");
}

#[test]
fn reports_grouped_by_module() {
    let d = descriptor("x");
    let results = vec![
        AbilityResult::from_execution(ModuleIdentity::new("a"), &d, ExecutionOutcome::Completed(Ok(1))),
        AbilityResult::from_execution(ModuleIdentity::new("b"), &d, ExecutionOutcome::Completed(Ok(2))),
        AbilityResult::from_execution(ModuleIdentity::new("a"), &d, ExecutionOutcome::Completed(Ok(3))),
        AbilityResult::from_execution(ModuleIdentity::new("c"), &d, ExecutionOutcome::Completed(Ok(4))),
        AbilityResult::from_execution(ModuleIdentity::new("a"), &d, ExecutionOutcome::Completed(Ok(5))),
    ];
    let modules = [module("a", false), module("b", false), module("c", false)];
    let groups = ModuleRegistry::group_by_module(&modules, results);
    let summary: Vec<(&str, Vec<i32>)> = groups
        .iter()
        .map(|(id, rs)| (id.0, rs.iter().map(|r| *r.output().unwrap()).collect()))
        .collect();
    assert_eq!(summary, vec![("a", vec![1, 3, 5]), ("b", vec![2]), ("c", vec![4])]);
}

fn steps_of(run: &AbilityRun<u32>) -> AbilityStep {
    run.next_step()
}

#[test]
fn allowed_successful_execution_calls_after_execute() {
    let run = AbilityRun::<u32>::start();
    assert_eq!(steps_of(&run), AbilityStep::BeforeExecute);
    let run = run.before_executed(Ok(true));
    assert_eq!(steps_of(&run), AbilityStep::Run);
    let run = run.ran(Ok(9));
    assert_eq!(steps_of(&run), AbilityStep::AfterExecute);
    assert_eq!(run.output(), Some(&9));
    assert!(run.error().is_none());
    let run = run.hook_done();
    assert_eq!(steps_of(&run), AbilityStep::Finish);
    assert_eq!(run.into_result().unwrap(), 9);
}

#[test]
fn allowed_failing_execution_calls_on_error() {
    let run = AbilityRun::<u32>::start().before_executed(Ok(true)).ran(Err(ArcError::QueueClosed));
    assert_eq!(steps_of(&run), AbilityStep::OnError);
    assert!(matches!(run.error(), Some(ArcError::QueueClosed)));
    let run = run.hook_done();
    assert_eq!(steps_of(&run), AbilityStep::Finish);
    assert!(matches!(run.into_result(), Err(ArcError::QueueClosed)));
}

#[test]
fn vetoed_execution_is_skipped_as_disabled() {
    let run = AbilityRun::<u32>::start().before_executed(Ok(false));
    assert_eq!(steps_of(&run), AbilityStep::Finish);
    assert!(matches!(run.into_result(), Err(ArcError::Skipped(SkipReason::Disabled))));
}

#[test]
fn failing_before_execute_ends_with_its_error() {
    let run = AbilityRun::<u32>::start().before_executed(Err(ArcError::PermissionDenied));
    assert_eq!(steps_of(&run), AbilityStep::Finish);
    assert!(matches!(run.into_result(), Err(ArcError::PermissionDenied)));
}

#[test]
fn suppressed_output_is_kept_out_of_the_results() {
    let d = descriptor("x");
    let mut quiet = module("quiet", false);
    quiet.force_disabled_output = true;
    let mut muted = module("muted", false);
    muted.auto_disable_output = true;
    let modules = [module("loud", false), quiet, muted];
    let make = || {
        vec![
            AbilityResult::from_execution(ModuleIdentity::new("loud"), &d, ExecutionOutcome::Completed(Ok(1))),
            AbilityResult::from_execution(ModuleIdentity::new("quiet"), &d, ExecutionOutcome::Completed(Ok(2))),
            AbilityResult::from_execution(ModuleIdentity::new("muted"), &d, ExecutionOutcome::Completed(Ok(3))),
            AbilityResult::from_execution(ModuleIdentity::new("loud"), &d, ExecutionOutcome::Completed(Ok(4))),
        ]
    };
    let visible: Vec<i32> = ModuleRegistry::visible_results(&modules, make())
        .iter()
        .map(|r| *r.output().unwrap())
        .collect();
    assert_eq!(visible, vec![1, 4]);
    let groups = ModuleRegistry::group_by_module(&modules, make());
    assert_eq!(groups.len(), 1);
    assert_eq!(groups[0].0, ModuleIdentity::new("loud"));
    assert_eq!(groups[0].1.len(), 2);
}

#[test]
fn module_results_in_priority_order_under_every_strategy() {
    let modules = [module("a", false), module("b", false)];
    let entries = [
        ability("a", "a1", 3, true, Auto),
        ability("b", "b1", 2, true, Auto),
        ability("a", "a2", 1, true, Auto),
        ability("b", "b2", 2, true, Auto),
        ability("a", "a3", 3, true, Auto),
        ability("b", "b3", 0, true, Auto),
    ];
    let order = ModuleRegistry::select_all(&modules, &entries, Auto);
    let priorities: Vec<i32> = order.iter().map(|&i| entries[i].descriptor.priority).collect();
    let mut per_strategy = Vec::new();
    for strategy in [
        ExecutionStrategy::Parallel,
        ExecutionStrategy::Sequential,
        ExecutionStrategy::PriorityGrouped,
    ] {
        let mut reports = Vec::new();
        for (start, end) in ModuleRegistry::execution_plan(&priorities, strategy) {
            for &i in &order[start..end] {
                let e = &entries[i];
                reports.push(AbilityResult::from_execution(
                    e.module_identity,
                    &e.descriptor,
                    ExecutionOutcome::Completed(Ok(e.descriptor.priority)),
                ));
            }
        }
        let groups: Vec<(&str, Vec<&str>)> = ModuleRegistry::group_by_module(&modules, reports)
            .iter()
            .map(|(id, rs)| (id.0, rs.iter().map(|r| r.ability_identity.0).collect()))
            .collect();
        per_strategy.push(groups);
    }
    let expected = vec![("b", vec!["b3", "b1", "b2"]), ("a", vec!["a2", "a1", "a3"])];
    for groups in per_strategy {
        assert_eq!(groups, expected);
    }
}
