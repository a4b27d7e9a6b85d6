//! The registry's decisions: which abilities run, in what order, in which
//! batches, and how their results are reported.
use vstd::prelude::*;

use crate::ability::{AbilityDescriptor, AbilityExecutionMode, AbilityIdentity};
use crate::error::ArcError;
use crate::module::{ModuleDescriptor, ModuleIdentity};
use crate::text::str_equal;

verus! {

broadcast use vstd::seq_lib::group_seq_properties;

/// How a list of abilities is run.
#[derive(Debug, Clone, Copy, PartialEq, Eq, Structural)]
pub enum ExecutionStrategy {
    /// All at once.
    Parallel,
    /// One after the other.
    Sequential,
    /// Runs of equal priority at once, the runs one after the other.
    PriorityGrouped,
}

impl Default for ExecutionStrategy {
    fn default() -> (r: Self)
        ensures
            r == ExecutionStrategy::Parallel,
    {
        ExecutionStrategy::Parallel
    }
}

/// What the registry knows of one registered ability: the module it belongs
/// to, its descriptor, and whether it reports itself enabled.
#[derive(Debug, Clone, Copy)]
pub struct AbilityEntry {
    pub module_identity: ModuleIdentity,
    pub descriptor: AbilityDescriptor,
    pub is_enabled: bool,
}

/// The registry of modules and abilities.
pub struct ModuleRegistry;

/// Whether `e` is run when the abilities of module `module_id` are run in `mode`.
pub open spec fn is_target(e: AbilityEntry, module_id: ModuleIdentity, mode: AbilityExecutionMode) -> bool {
    &&& e.module_identity.0@ == module_id.0@
    &&& e.is_enabled
    &&& e.descriptor.execution_mode == mode
}

/// The positions, in registry order, of the abilities that run for module
/// `module_id` in `mode`.
pub open spec fn targets_of(
    entries: Seq<AbilityEntry>,
    module_id: ModuleIdentity,
    mode: AbilityExecutionMode,
) -> Seq<usize>
    decreases entries.len(),
{
    if entries.len() == 0 {
        Seq::empty()
    } else {
        let prev = targets_of(entries.drop_last(), module_id, mode);
        if is_target(entries.last(), module_id, mode) {
            prev.push((entries.len() - 1) as usize)
        } else {
            prev
        }
    }
}

/// The positions, in registry order, of the modules that are not disabled.
pub open spec fn active_of(modules: Seq<ModuleDescriptor>) -> Seq<usize>
    decreases modules.len(),
{
    if modules.len() == 0 {
        Seq::empty()
    } else {
        let prev = active_of(modules.drop_last());
        if !modules.last().is_disabled {
            prev.push((modules.len() - 1) as usize)
        } else {
            prev
        }
    }
}

/// For each module that is not disabled, in registry order, the positions of
/// its abilities that run in `mode`, one module's after the other's.
pub open spec fn all_targets_of(
    modules: Seq<ModuleDescriptor>,
    entries: Seq<AbilityEntry>,
    mode: AbilityExecutionMode,
) -> Seq<usize>
    decreases modules.len(),
{
    if modules.len() == 0 {
        Seq::empty()
    } else {
        let prev = all_targets_of(modules.drop_last(), entries, mode);
        if !modules.last().is_disabled {
            prev + targets_of(entries, modules.last().identity, mode)
        } else {
            prev
        }
    }
}

/// A registered module of identity `id` is disabled: it is neither
/// initialised nor run.
pub open spec fn module_disabled(modules: Seq<ModuleDescriptor>, id: ModuleIdentity) -> bool {
    exists|i: int|
        0 <= i < modules.len() && (#[trigger] modules[i]).identity.0@ == id.0@ && modules[i].is_disabled
}

/// A registered module of identity `id` keeps its results out of the
/// output: it still runs, but its reports are not part of the results.
pub open spec fn output_suppressed(modules: Seq<ModuleDescriptor>, id: ModuleIdentity) -> bool {
    exists|i: int|
        0 <= i < modules.len() && (#[trigger] modules[i]).identity.0@ == id.0@ && (
        modules[i].force_disabled_output || modules[i].auto_disable_output)
}

/// The priority of the ability at position `i`.
pub open spec fn priority_at(entries: Seq<AbilityEntry>, i: usize) -> i32 {
    entries[i as int].descriptor.priority
}

/// Every position in `s` names an ability of `entries`.
pub open spec fn in_bounds(entries: Seq<AbilityEntry>, s: Seq<usize>) -> bool {
    forall|i: int| 0 <= i < s.len() ==> #[trigger] s[i] < entries.len()
}

/// The abilities of `s` come in order of priority, lowest first.
pub open spec fn sorted_by_priority(entries: Seq<AbilityEntry>, s: Seq<usize>) -> bool {
    forall|i: int, j: int|
        0 <= i < j < s.len() ==> priority_at(entries, #[trigger] s[i]) <= priority_at(
            entries,
            #[trigger] s[j],
        )
}

/// The abilities of `s` whose priority is `p`, in the order of `s`.
pub open spec fn of_priority(entries: Seq<AbilityEntry>, s: Seq<usize>, p: i32) -> Seq<usize> {
    s.filter(|x: usize| priority_at(entries, x) == p)
}

/// `r` is `s` sorted by priority, stably: sorted, and with the abilities of
/// each priority in the order they have in `s`.
pub open spec fn is_stable_sort(entries: Seq<AbilityEntry>, s: Seq<usize>, r: Seq<usize>) -> bool {
    &&& sorted_by_priority(entries, r)
    &&& forall|p: i32| #[trigger] of_priority(entries, r, p) == of_priority(entries, s, p)
}

/// Inserting `x` after every element of priority at most its own, and before
/// every element of a higher priority, keeps a sorted sequence sorted and
/// appends `x` to the elements of its own priority.
proof fn lemma_insert_sorted(entries: Seq<AbilityEntry>, r: Seq<usize>, k: int, x: usize)
    requires
        0 <= k <= r.len(),
        in_bounds(entries, r),
        x < entries.len(),
        sorted_by_priority(entries, r),
        forall|j: int| 0 <= j < k ==> priority_at(entries, #[trigger] r[j]) <= priority_at(entries, x),
        forall|j: int| k <= j < r.len() ==> priority_at(entries, #[trigger] r[j]) > priority_at(entries, x),
    ensures
        sorted_by_priority(entries, r.insert(k, x)),
        in_bounds(entries, r.insert(k, x)),
        forall|p: i32| #[trigger]
            of_priority(entries, r.insert(k, x), p) == if p == priority_at(entries, x) {
                of_priority(entries, r, p).push(x)
            } else {
                of_priority(entries, r, p)
            },
{
    let r2 = r.insert(k, x);
    let front = r.take(k);
    let back = r.skip(k);
    assert(r2 =~= front + seq![x] + back);
    assert(r =~= front + back);
    assert forall|p: i32| #[trigger]
        of_priority(entries, r2, p) == if p == priority_at(entries, x) {
            of_priority(entries, r, p).push(x)
        } else {
            of_priority(entries, r, p)
        } by {
        let pred = |y: usize| priority_at(entries, y) == p;
        Seq::filter_distributes_over_add(front + seq![x], back, pred);
        Seq::filter_distributes_over_add(front, seq![x], pred);
        Seq::filter_distributes_over_add(front, back, pred);
        seq![x].lemma_filter_push(x, pred);
        Seq::<usize>::empty().lemma_filter_push(x, pred);
        assert(Seq::<usize>::empty().push(x) =~= seq![x]);
        reveal(Seq::filter);
        assert(Seq::<usize>::empty().filter(pred) =~= Seq::<usize>::empty());
        if p == priority_at(entries, x) {
            assert(back.all(|y: usize| !pred(y)));
            back.lemma_all_neg_filter_empty(pred);
            assert(back.filter(pred) =~= Seq::<usize>::empty());
            assert(of_priority(entries, r2, p) =~= front.filter(pred) + seq![x]);
            assert(of_priority(entries, r, p) =~= front.filter(pred));
        } else {
            assert(seq![x].filter(pred) =~= Seq::<usize>::empty()) by {
                Seq::<usize>::empty().lemma_filter_push(x, pred);
            }
            assert(of_priority(entries, r2, p) =~= front.filter(pred) + back.filter(pred));
        }
    }
}

/// Two sequences sorted by priority that hold, for every priority, the same
/// abilities in the same order are the same sequence.
proof fn lemma_sorted_classes_determine(entries: Seq<AbilityEntry>, a: Seq<usize>, b: Seq<usize>)
    requires
        sorted_by_priority(entries, a),
        sorted_by_priority(entries, b),
        forall|p: i32| #[trigger] of_priority(entries, a, p) == of_priority(entries, b, p),
    ensures
        a == b,
    decreases a.len() + b.len(),
{
    reveal(Seq::filter);
    if a.len() == 0 && b.len() == 0 {
        assert(a =~= b);
        return;
    }
    if a.len() == 0 || b.len() == 0 {
        let (full, empty) = if a.len() == 0 { (b, a) } else { (a, b) };
        let p = priority_at(entries, full[0]);
        let pred = |x: usize| priority_at(entries, x) == p;
        full.lemma_filter_contains(pred, 0);
        assert(empty.filter(pred) =~= empty);
        assert(of_priority(entries, full, p).len() > 0);
        assert(of_priority(entries, empty, p).len() == 0);
        return;
    }
    let pa = priority_at(entries, a[0]);
    let pb = priority_at(entries, b[0]);
    // The lowest priority of each sequence comes first, so both start with the same priority.
    assert(pa == pb) by {
        if pa < pb {
            let pred = |x: usize| priority_at(entries, x) == pa;
            a.lemma_filter_contains(pred, 0);
            assert(b.all(|x: usize| !pred(x))) by {
                assert forall|i: int| 0 <= i < b.len() implies !pred(b[i]) by {
                    if i > 0 {
                        assert(priority_at(entries, b[0]) <= priority_at(entries, b[i]));
                    }
                }
            }
            b.lemma_all_neg_filter_empty(pred);
            assert(of_priority(entries, a, pa) == of_priority(entries, b, pa));
        } else if pb < pa {
            let pred = |x: usize| priority_at(entries, x) == pb;
            b.lemma_filter_contains(pred, 0);
            assert(a.all(|x: usize| !pred(x))) by {
                assert forall|i: int| 0 <= i < a.len() implies !pred(a[i]) by {
                    if i > 0 {
                        assert(priority_at(entries, a[0]) <= priority_at(entries, a[i]));
                    }
                }
            }
            a.lemma_all_neg_filter_empty(pred);
            assert(of_priority(entries, a, pb) == of_priority(entries, b, pb));
        }
    }
    let ta = a.drop_first();
    let tb = b.drop_first();
    assert(a =~= seq![a[0]] + ta);
    assert(b =~= seq![b[0]] + tb);
    // The first element of that priority is the head of each sequence.
    assert(a[0] == b[0]) by {
        let pred = |x: usize| priority_at(entries, x) == pa;
        ta.lemma_filter_prepend(a[0], pred);
        tb.lemma_filter_prepend(b[0], pred);
        assert(of_priority(entries, a, pa) == of_priority(entries, b, pa));
        assert(of_priority(entries, a, pa)[0] == a[0]);
        assert(of_priority(entries, b, pa)[0] == b[0]);
    }
    assert forall|p: i32| #[trigger] of_priority(entries, ta, p) == of_priority(entries, tb, p) by {
        let pred = |x: usize| priority_at(entries, x) == p;
        ta.lemma_filter_prepend(a[0], pred);
        tb.lemma_filter_prepend(b[0], pred);
        assert(of_priority(entries, a, p) == of_priority(entries, b, p));
        let head: Seq<usize> = if pred(a[0]) { seq![a[0]] } else { Seq::empty() };
        assert(of_priority(entries, a, p) == head + of_priority(entries, ta, p));
        assert(of_priority(entries, b, p) == head + of_priority(entries, tb, p));
        assert(of_priority(entries, ta, p) =~= (head + of_priority(entries, ta, p)).skip(head.len() as int));
        assert(of_priority(entries, tb, p) =~= (head + of_priority(entries, tb, p)).skip(head.len() as int));
    }
    assert(sorted_by_priority(entries, ta)) by {
        assert forall|i: int, j: int| 0 <= i < j < ta.len() implies priority_at(entries, #[trigger] ta[i])
            <= priority_at(entries, #[trigger] ta[j]) by {
            assert(ta[i] == a[i + 1] && ta[j] == a[j + 1]);
        }
    }
    assert(sorted_by_priority(entries, tb)) by {
        assert forall|i: int, j: int| 0 <= i < j < tb.len() implies priority_at(entries, #[trigger] tb[i])
            <= priority_at(entries, #[trigger] tb[j]) by {
            assert(tb[i] == b[i + 1] && tb[j] == b[j + 1]);
        }
    }
    lemma_sorted_classes_determine(entries, ta, tb);
    assert(a =~= b);
}

/// A stable sort by priority has exactly one result: the contract of the
/// ability selection determines its order completely.
pub proof fn law_stable_sort_is_unique(entries: Seq<AbilityEntry>, s: Seq<usize>, r1: Seq<usize>, r2: Seq<usize>)
    requires
        is_stable_sort(entries, s, r1),
        is_stable_sort(entries, s, r2),
    ensures
        r1 == r2,
{
    assert forall|p: i32| #[trigger] of_priority(entries, r1, p) == of_priority(entries, r2, p) by {
        assert(of_priority(entries, r1, p) == of_priority(entries, s, p));
        assert(of_priority(entries, r2, p) == of_priority(entries, s, p));
    }
    lemma_sorted_classes_determine(entries, r1, r2);
}

/// Every position that `targets_of` names is an ability that runs for that
/// module in that mode.
proof fn lemma_targets_qualify(entries: Seq<AbilityEntry>, module_id: ModuleIdentity, mode: AbilityExecutionMode)
    requires
        entries.len() <= usize::MAX,
    ensures
        forall|i: int|
            0 <= i < targets_of(entries, module_id, mode).len() ==> {
                let t = #[trigger] targets_of(entries, module_id, mode)[i];
                t < entries.len() && is_target(entries[t as int], module_id, mode)
            },
    decreases entries.len(),
{
    if entries.len() > 0 {
        let prev = entries.drop_last();
        lemma_targets_qualify(prev, module_id, mode);
        assert forall|i: int| 0 <= i < targets_of(entries, module_id, mode).len() implies {
            let t = #[trigger] targets_of(entries, module_id, mode)[i];
            t < entries.len() && is_target(entries[t as int], module_id, mode)
        } by {
            let tp = targets_of(prev, module_id, mode);
            if i < tp.len() {
                assert(targets_of(entries, module_id, mode)[i] == tp[i]);
                let t = tp[i];
                assert(prev[t as int] == entries[t as int]);
            } else {
                assert(is_target(entries.last(), module_id, mode));
                assert(targets_of(entries, module_id, mode)[i] == (entries.len() - 1) as usize);
            }
        }
    }
}

/// The abilities that run for a module in a mode are exactly those of that
/// module that are enabled and run in that mode: each selected one
/// qualifies, and each qualifying one is selected.
pub proof fn law_selection_is_exact(
    entries: Seq<AbilityEntry>,
    module_id: ModuleIdentity,
    mode: AbilityExecutionMode,
    r: Seq<usize>,
)
    requires
        entries.len() <= usize::MAX,
        is_stable_sort(entries, targets_of(entries, module_id, mode), r),
    ensures
        forall|i: int| 0 <= i < r.len() ==> #[trigger] r[i] < entries.len() && is_target(entries[r[i] as int], module_id, mode),
        forall|j: int|
            0 <= j < entries.len() && is_target(#[trigger] entries[j], module_id, mode) ==> r.contains(j as usize),
        forall|i: int|
            0 <= i < r.len() ==> {
                let e = #[trigger] entries[r[i] as int];
                &&& e.is_enabled
                &&& e.module_identity.0@ == module_id.0@
                &&& e.descriptor.execution_mode == mode
            },
        forall|j: int|
            0 <= j < entries.len() && (#[trigger] entries[j]).is_enabled && entries[j].module_identity.0@
                == module_id.0@ && entries[j].descriptor.execution_mode == mode ==> r.contains(j as usize),
        forall|i: int, j: int|
            0 <= i < j < r.len() ==> entries[#[trigger] r[i] as int].descriptor.priority <= entries[#[trigger] r[j] as int].descriptor.priority,
        forall|i: int, j: int|
            0 <= i < j < r.len() && entries[r[i] as int].descriptor.priority == entries[r[j] as int].descriptor.priority
                ==> #[trigger] r[i] < #[trigger] r[j],
{
    let t = targets_of(entries, module_id, mode);
    lemma_targets_increasing(entries, module_id, mode);
    assert forall|i: int, j: int|
        0 <= i < j < r.len() && entries[r[i] as int].descriptor.priority == entries[r[j] as int].descriptor.priority
            implies #[trigger] r[i] < #[trigger] r[j] by {
        let p = priority_at(entries, r[i]);
        let pred = |x: usize| priority_at(entries, x) == p;
        assert(of_priority(entries, r, p) == of_priority(entries, t, p));
        lemma_filter_increasing(t, pred);
        lemma_filter_orders(r, pred, i, j);
    }
    lemma_targets_qualify(entries, module_id, mode);
    lemma_targets_cover(entries, module_id, mode);
    assert forall|i: int| 0 <= i < r.len() implies #[trigger] r[i] < entries.len() && is_target(
        entries[r[i] as int],
        module_id,
        mode,
    ) by {
        let p = priority_at(entries, r[i]);
        let pred = |x: usize| priority_at(entries, x) == p;
        r.lemma_filter_contains(pred, i);
        assert(of_priority(entries, r, p) == of_priority(entries, t, p));
        t.lemma_filter_contains_rev(pred, r[i]);
        let k = choose|k: int| 0 <= k < t.len() && t[k] == r[i];
        assert(t[k] < entries.len());
    }
    assert forall|j: int| 0 <= j < entries.len() && is_target(#[trigger] entries[j], module_id, mode) implies r.contains(
        j as usize,
    ) by {
        let k = choose|k: int| 0 <= k < t.len() && t[k] == j as usize;
        let p = priority_at(entries, j as usize);
        let pred = |x: usize| priority_at(entries, x) == p;
        t.lemma_filter_contains(pred, k);
        assert(of_priority(entries, r, p) == of_priority(entries, t, p));
        r.lemma_filter_contains_rev(pred, j as usize);
    }
}

/// Every ability that runs for a module in a mode is among `targets_of`.
proof fn lemma_targets_cover(entries: Seq<AbilityEntry>, module_id: ModuleIdentity, mode: AbilityExecutionMode)
    requires
        entries.len() <= usize::MAX,
    ensures
        forall|j: int|
            0 <= j < entries.len() && is_target(#[trigger] entries[j], module_id, mode) ==> exists|k: int|
                0 <= k < targets_of(entries, module_id, mode).len() && targets_of(entries, module_id, mode)[k]
                    == j as usize,
    decreases entries.len(),
{
    if entries.len() > 0 {
        let prev = entries.drop_last();
        lemma_targets_cover(prev, module_id, mode);
        let t = targets_of(entries, module_id, mode);
        let tp = targets_of(prev, module_id, mode);
        assert forall|j: int| 0 <= j < entries.len() && is_target(#[trigger] entries[j], module_id, mode) implies exists|k: int|
            0 <= k < t.len() && t[k] == j as usize by {
            if j < entries.len() - 1 {
                assert(prev[j] == entries[j]);
                let k = choose|k: int| 0 <= k < tp.len() && tp[k] == j as usize;
                assert(t[k] == tp[k]);
            } else {
                assert(t[t.len() - 1] == j as usize);
            }
        }
    }
}

/// Sorts `cand` by priority, keeping the order of equal priorities (a stable sort).
fn stable_sort_by_priority(entries: &[AbilityEntry], cand: &Vec<usize>) -> (r: Vec<usize>)
    requires
        in_bounds(entries@, cand@),
    ensures
        in_bounds(entries@, r@),
        is_stable_sort(entries@, cand@, r@),
{
    let mut r: Vec<usize> = Vec::new();
    let n = cand.len();
    for i in 0..n
        invariant
            n == cand.len(),
            in_bounds(entries@, cand@),
            in_bounds(entries@, r@),
            sorted_by_priority(entries@, r@),
            forall|p: i32| #[trigger]
                of_priority(entries@, r@, p) == of_priority(entries@, cand@.take(i as int), p),
    {
        let x = cand[i];
        let px = entries[x].descriptor.priority;
        let mut k: usize = 0;
        while k < r.len() && entries[r[k]].descriptor.priority <= px
            invariant
                k <= r.len(),
                in_bounds(entries@, r@),
                x < entries@.len(),
                px == priority_at(entries@, x),
                forall|j: int| 0 <= j < k ==> priority_at(entries@, #[trigger] r@[j]) <= px,
            decreases r.len() - k,
        {
            k = k + 1;
        }
        proof {
            assert forall|j: int| k <= j < r@.len() implies priority_at(entries@, #[trigger] r@[j])
                > px by {
                assert(priority_at(entries@, r@[k as int]) > px);
                if j > k {
                    assert(priority_at(entries@, r@[k as int]) <= priority_at(entries@, r@[j]));
                }
            }
            lemma_insert_sorted(entries@, r@, k as int, x);
            assert(cand@.take(i + 1) =~= cand@.take(i as int).push(x));
            assert forall|p: i32| #[trigger]
                of_priority(entries@, cand@.take(i + 1), p) == if p == px {
                    of_priority(entries@, cand@.take(i as int), p).push(x)
                } else {
                    of_priority(entries@, cand@.take(i as int), p)
                } by {
                cand@.take(i as int).lemma_filter_push(x, |y: usize| priority_at(entries@, y) == p);
            }
        }
        r.insert(k, x);
    }
    proof {
        assert(cand@.take(n as int) =~= cand@);
    }
    r
}

impl ModuleRegistry {
    /// The positions of the abilities that run for module `module_id` in
    /// `mode`: none when a registered module of that identity is disabled;
    /// otherwise those of that module that are enabled and run in that mode,
    /// ordered by priority, with registry order among equal priorities.
    pub fn select_abilities(
        modules: &[ModuleDescriptor],
        entries: &[AbilityEntry],
        module_id: &ModuleIdentity,
        mode: AbilityExecutionMode,
    ) -> (r: Vec<usize>)
        ensures
            in_bounds(entries@, r@),
            module_disabled(modules@, *module_id) ==> r@.len() == 0,
            (exists|m: int|
                0 <= m < modules@.len() && (#[trigger] modules@[m]).identity.0@ == module_id.0@
                    && modules@[m].is_disabled) ==> r@.len() == 0,
            !(exists|m: int|
                0 <= m < modules@.len() && (#[trigger] modules@[m]).identity.0@ == module_id.0@
                    && modules@[m].is_disabled) ==> is_stable_sort(entries@, targets_of(entries@, *module_id, mode), r@),
            !module_disabled(modules@, *module_id) ==> is_stable_sort(
                entries@,
                targets_of(entries@, *module_id, mode),
                r@,
            ),
    {
        if Self::is_module_disabled(modules, module_id) {
            return Vec::new();
        }
        let cand = Self::targets(entries, module_id, mode);
        stable_sort_by_priority(entries, &cand)
    }

    /// Whether a registered module of identity `id` is disabled.
    fn is_module_disabled(modules: &[ModuleDescriptor], id: &ModuleIdentity) -> (r: bool)
        ensures
            r == module_disabled(modules@, *id),
    {
        let mut i: usize = 0;
        while i < modules.len()
            invariant
                i <= modules@.len(),
                forall|j: int|
                    0 <= j < i ==> !((#[trigger] modules@[j]).identity.0@ == id.0@ && modules@[j].is_disabled),
            decreases modules@.len() - i,
        {
            if modules[i].is_disabled && str_equal(modules[i].identity.0, id.0) {
                return true;
            }
            i = i + 1;
        }
        false
    }

    /// Whether a registered module of identity `id` keeps its results out of
    /// the output, forcibly or as decided at run time.
    fn is_output_suppressed(modules: &[ModuleDescriptor], id: &ModuleIdentity) -> (r: bool)
        ensures
            r == output_suppressed(modules@, *id),
    {
        let mut i: usize = 0;
        while i < modules.len()
            invariant
                i <= modules@.len(),
                forall|j: int|
                    0 <= j < i ==> !((#[trigger] modules@[j]).identity.0@ == id.0@ && (
                    modules@[j].force_disabled_output || modules@[j].auto_disable_output)),
            decreases modules@.len() - i,
        {
            if (modules[i].force_disabled_output || modules[i].auto_disable_output) && str_equal(
                modules[i].identity.0,
                id.0,
            ) {
                return true;
            }
            i = i + 1;
        }
        false
    }

    /// The positions, in registry order, of the abilities that run for
    /// module `module_id` in `mode`.
    fn targets(entries: &[AbilityEntry], module_id: &ModuleIdentity, mode: AbilityExecutionMode) -> (r:
        Vec<usize>)
        ensures
            r@ == targets_of(entries@, *module_id, mode),
            in_bounds(entries@, r@),
    {
        let mut r: Vec<usize> = Vec::new();
        let n = entries.len();
        for i in 0..n
            invariant
                n == entries@.len(),
                r@ == targets_of(entries@.take(i as int), *module_id, mode),
                in_bounds(entries@, r@),
        {
            let e = &entries[i];
            let hit = str_equal(e.module_identity.0, module_id.0) && e.is_enabled
                && e.descriptor.execution_mode == mode;
            proof {
                assert(entries@.take(i + 1).drop_last() =~= entries@.take(i as int));
            }
            if hit {
                r.push(i);
            }
        }
        proof {
            assert(entries@.take(n as int) =~= entries@);
        }
        r
    }

    /// The positions of all abilities that run in `mode`: for every module
    /// that is not disabled, in registry order, its enabled abilities of that
    /// mode, the whole ordered by priority with that order among equal
    /// priorities.
    pub fn select_all(
        modules: &[ModuleDescriptor],
        entries: &[AbilityEntry],
        mode: AbilityExecutionMode,
    ) -> (r: Vec<usize>)
        ensures
            in_bounds(entries@, r@),
            is_stable_sort(entries@, all_targets_of(modules@, entries@, mode), r@),
    {
        let mut all: Vec<usize> = Vec::new();
        let n = modules.len();
        for m in 0..n
            invariant
                n == modules@.len(),
                all@ == all_targets_of(modules@.take(m as int), entries@, mode),
                in_bounds(entries@, all@),
        {
            proof {
                assert(modules@.take(m + 1).drop_last() =~= modules@.take(m as int));
            }
            if !modules[m].is_disabled {
                let mut group = Self::targets(entries, &modules[m].identity, mode);
                all.append(&mut group);
            }
        }
        proof {
            assert(modules@.take(n as int) =~= modules@);
        }
        stable_sort_by_priority(entries, &all)
    }

    /// The positions, in registry order, of the modules that are not
    /// disabled: the modules that are initialised, in the order of their results.
    pub fn active_modules(modules: &[ModuleDescriptor]) -> (r: Vec<usize>)
        ensures
            r@ == active_of(modules@),
    {
        let mut r: Vec<usize> = Vec::new();
        let n = modules.len();
        for m in 0..n
            invariant
                n == modules@.len(),
                r@ == active_of(modules@.take(m as int)),
        {
            proof {
                assert(modules@.take(m + 1).drop_last() =~= modules@.take(m as int));
            }
            if !modules[m].is_disabled {
                r.push(m);
            }
        }
        proof {
            assert(modules@.take(n as int) =~= modules@);
        }
        r
    }

    /// The order in which modules are shut down: the modules that are not
    /// disabled, last registered first.
    pub fn shutdown_order(modules: &[ModuleDescriptor]) -> (r: Vec<usize>)
        ensures
            r@ == active_of(modules@).reverse(),
    {
        let active = Self::active_modules(modules);
        let mut r: Vec<usize> = Vec::new();
        let n = active.len();
        for i in 0..n
            invariant
                n == active@.len(),
                active@ == active_of(modules@),
                r@ == active@.reverse().take(i as int),
        {
            proof {
                assert(active@.reverse().take(i + 1) =~= active@.reverse().take(i as int).push(
                    active@[n - 1 - i],
                ));
            }
            r.push(active[n - 1 - i]);
        }
        proof {
            assert(active@.reverse().take(n as int) =~= active@.reverse());
        }
        r
    }

    /// What the initialisation of module `identity` reports: its identity on
    /// success, the error otherwise.
    pub fn initialization_result(identity: ModuleIdentity, outcome: Result<(), ArcError>) -> (r:
        Result<ModuleIdentity, ArcError>)
        ensures
            match outcome {
                Ok(_) => r == Ok::<ModuleIdentity, ArcError>(identity),
                Err(e) => r == Err::<ModuleIdentity, ArcError>(e),
            },
    {
        match outcome {
            Ok(_) => Ok(identity),
            Err(e) => Err(e),
        }
    }
}

/// Modules shut down in the reverse of the order in which they are
/// initialised: the `i`-th module shut down is the `i`-th from the end of
/// those initialised.
pub proof fn law_shutdown_reverses_initialization(modules: Seq<ModuleDescriptor>)
    ensures
        active_of(modules).reverse().len() == active_of(modules).len(),
        forall|i: int|
            0 <= i < active_of(modules).len() ==> #[trigger] active_of(modules).reverse()[i]
                == active_of(modules)[active_of(modules).len() - 1 - i],
{
}

/// `batches` are consecutive, non-empty ranges of positions that cover
/// `0..n` exactly, in order.
pub open spec fn is_partition(batches: Seq<(usize, usize)>, n: nat) -> bool {
    &&& (batches.len() == 0 <==> n == 0)
    &&& forall|k: int| 0 <= k < batches.len() ==> (#[trigger] batches[k]).0 < batches[k].1
    &&& forall|k: int|
        0 <= k < batches.len() - 1 ==> (#[trigger] batches[k]).1 == batches[k + 1].0
    &&& batches.len() > 0 ==> batches[0].0 == 0 && batches.last().1 == n
}

/// `batches` cut `priorities` into its runs of equal priority: each batch is
/// a maximal range of consecutive positions of one priority.
pub open spec fn is_priority_grouping(priorities: Seq<i32>, batches: Seq<(usize, usize)>) -> bool {
    &&& is_partition(batches, priorities.len())
    &&& forall|k: int, i: int|
        0 <= k < batches.len() && (#[trigger] batches[k]).0 <= i < batches[k].1 ==> #[trigger] priorities[i]
            == priorities[batches[k].0 as int]
    &&& forall|k: int|
        0 < k < batches.len() ==> priorities[(#[trigger] batches[k]).0 - 1] != priorities[batches[k].0 as int]
}

impl ModuleRegistry {
    /// The batches in which a list of abilities with these priorities runs:
    /// each batch runs all at once, the batches one after the other. All
    /// abilities form one batch when run in parallel, each its own batch when
    /// run sequentially, and each run of equal priority a batch when grouped
    /// by priority. Whatever the strategy, every ability runs exactly once,
    /// in list order.
    pub fn execution_plan(priorities: &[i32], strategy: ExecutionStrategy) -> (r: Vec<(usize, usize)>)
        ensures
            is_partition(r@, priorities@.len()),
            strategy == ExecutionStrategy::Parallel ==> r@ == if priorities@.len() == 0 {
                Seq::<(usize, usize)>::empty()
            } else {
                seq![(0usize, priorities@.len() as usize)]
            },
            strategy == ExecutionStrategy::Sequential ==> r@.len() == priorities@.len() && forall|k: int|
                0 <= k < r@.len() ==> #[trigger] r@[k] == (k as usize, (k + 1) as usize),
            strategy == ExecutionStrategy::PriorityGrouped ==> is_priority_grouping(priorities@, r@),
    {
        match strategy {
            ExecutionStrategy::Parallel => {
                let mut r: Vec<(usize, usize)> = Vec::new();
                if priorities.len() > 0 {
                    r.push((0, priorities.len()));
                }
                r
            },
            ExecutionStrategy::Sequential => {
                let mut r: Vec<(usize, usize)> = Vec::new();
                let n = priorities.len();
                for i in 0..n
                    invariant
                        n == priorities@.len(),
                        r@.len() == i,
                        forall|k: int| 0 <= k < r@.len() ==> #[trigger] r@[k] == (k as usize, (k + 1) as usize),
                {
                    r.push((i, i + 1));
                }
                r
            },
            ExecutionStrategy::PriorityGrouped => Self::priority_groups(priorities),
        }
    }

    /// Cuts a list of priorities into its runs of equal priority.
    fn priority_groups(priorities: &[i32]) -> (r: Vec<(usize, usize)>)
        ensures
            is_priority_grouping(priorities@, r@),
    {
        let mut r: Vec<(usize, usize)> = Vec::new();
        let n = priorities.len();
        if n == 0 {
            return r;
        }
        let mut start: usize = 0;
        let mut i: usize = 1;
        while i < n
            invariant
                n == priorities@.len(),
                0 <= start < i <= n,
                r@.len() == 0 <==> start == 0,
                r@.len() > 0 ==> r@[0].0 == 0 && r@.last().1 == start,
                forall|k: int| 0 <= k < r@.len() ==> (#[trigger] r@[k]).0 < r@[k].1,
                forall|k: int| 0 <= k < r@.len() - 1 ==> (#[trigger] r@[k]).1 == r@[k + 1].0,
                forall|k: int, j: int|
                    0 <= k < r@.len() && (#[trigger] r@[k]).0 <= j < r@[k].1 ==> #[trigger] priorities@[j]
                        == priorities@[r@[k].0 as int],
                forall|k: int|
                    0 < k < r@.len() ==> priorities@[(#[trigger] r@[k]).0 - 1] != priorities@[r@[k].0 as int],
                start > 0 ==> priorities@[start - 1] != priorities@[start as int],
                forall|j: int| start <= j < i ==> #[trigger] priorities@[j] == priorities@[start as int],
            decreases n - i,
        {
            if priorities[i] != priorities[start] {
                r.push((start, i));
                start = i;
            }
            i = i + 1;
        }
        r.push((start, n));
        r
    }
}

/// How one execution of an ability ended, as seen by the registry.
pub enum ExecutionOutcome<O> {
    /// The execution ran to its end with this result.
    Completed(Result<O, ArcError>),
    /// The execution did not end within the allowed time, given in whole seconds.
    TimedOut(u64),
}

/// The report of one executed ability.
pub struct AbilityResult<O> {
    pub ability_identity: AbilityIdentity,
    pub module_identity: ModuleIdentity,
    pub display_name: &'static str,
    pub description: &'static str,
    /// The output, or the error, that the execution ended with.
    pub result: Result<O, ArcError>,
}

/// The operation that a timed-out ability is reported under.
pub open spec fn timeout_operation(display_name: Seq<char>) -> Seq<char> {
    "执行能力 "@ + display_name
}

impl<O> AbilityResult<O> {
    /// The output, or the error, that the execution ended with.
    pub open spec fn outcome(&self) -> Result<O, ArcError> {
        self.result
    }

    /// The report of an ability of module `module_identity`, described by
    /// `descriptor`, whose execution ended as `outcome`. A timeout is reported
    /// as [`ArcError::Timeout`] of the operation "执行能力 " followed by the
    /// ability's display name.
    pub fn from_execution(
        module_identity: ModuleIdentity,
        descriptor: &AbilityDescriptor,
        outcome: ExecutionOutcome<O>,
    ) -> (r: Self)
        ensures
            r.ability_identity == descriptor.identity,
            r.module_identity == module_identity,
            r.display_name == descriptor.display_name,
            r.description == descriptor.description,
            match outcome {
                ExecutionOutcome::Completed(res) => r.outcome() == res,
                ExecutionOutcome::TimedOut(secs) => r.outcome() matches Err(
                    ArcError::Timeout { operation, duration_secs },
                ) && operation@ == timeout_operation(descriptor.display_name@) && duration_secs
                    == secs,
            },
    {
        let result = match outcome {
            ExecutionOutcome::Completed(res) => res,
            ExecutionOutcome::TimedOut(secs) => {
                let operation = String::from_str("执行能力 ").concat(descriptor.display_name);
                Err(ArcError::timeout(operation.as_str(), secs))
            },
        };
        AbilityResult {
            ability_identity: descriptor.identity,
            module_identity,
            display_name: descriptor.display_name,
            description: descriptor.description,
            result,
        }
    }

    /// Whether the ability produced an output.
    pub fn is_success(&self) -> (r: bool)
        ensures
            r == self.outcome() is Ok,
    {
        self.result.is_ok()
    }

    /// The error of a failed ability.
    pub fn error(&self) -> (r: Option<&ArcError>)
        ensures
            match self.outcome() {
                Ok(_) => r is None,
                Err(e) => r == Some(&e),
            },
    {
        match &self.result {
            Ok(_) => None,
            Err(e) => Some(e),
        }
    }

    /// The output of a successful ability.
    pub fn output(&self) -> (r: Option<&O>)
        ensures
            match self.outcome() {
                Ok(o) => r == Some(&o),
                Err(_) => r is None,
            },
    {
        match &self.result {
            Ok(o) => Some(o),
            Err(_) => None,
        }
    }
}

/// The reports of `s` that belong in the results: those of the modules that
/// do not keep their output out.
pub open spec fn shown<O>(modules: Seq<ModuleDescriptor>, s: Seq<AbilityResult<O>>) -> Seq<AbilityResult<O>> {
    s.filter(|x: AbilityResult<O>| !output_suppressed(modules, x.module_identity))
}

/// The reports of `s` that belong to module `id`, in the order of `s`.
pub open spec fn of_module<O>(s: Seq<AbilityResult<O>>, id: ModuleIdentity) -> Seq<AbilityResult<O>> {
    s.filter(|x: AbilityResult<O>| x.module_identity.0@ == id.0@)
}

/// `groups` gathers the reports of `results` by module: one group per
/// module that has reports, each holding that module's reports in order.
pub open spec fn is_grouping<O>(
    results: Seq<AbilityResult<O>>,
    groups: Seq<(ModuleIdentity, Vec<AbilityResult<O>>)>,
) -> bool {
    &&& forall|a: int, b: int|
        0 <= a < b < groups.len() ==> (#[trigger] groups[a]).0.0@ != (#[trigger] groups[b]).0.0@
    &&& forall|k: int|
        0 <= k < groups.len() ==> (#[trigger] groups[k]).1@ == of_module(results, groups[k].0)
            && groups[k].1@.len() > 0
    &&& forall|i: int| 0 <= i < results.len() ==> #[trigger] has_group(groups, results[i].module_identity)
}

/// The modules of `s`, each once, in the order of their first report.
pub open spec fn module_order<O>(s: Seq<AbilityResult<O>>) -> Seq<Seq<char>>
    decreases s.len(),
{
    if s.len() == 0 {
        Seq::empty()
    } else {
        let prev = module_order(s.drop_last());
        if prev.contains(s.last().module_identity.0@) {
            prev
        } else {
            prev.push(s.last().module_identity.0@)
        }
    }
}

/// The module names of `groups`, in order.
pub open spec fn group_names<O>(groups: Seq<(ModuleIdentity, Vec<AbilityResult<O>>)>) -> Seq<Seq<char>> {
    groups.map_values(|g: (ModuleIdentity, Vec<AbilityResult<O>>)| g.0.0@)
}

/// Some group of `groups` is the group of module `id`.
pub open spec fn has_group<O>(groups: Seq<(ModuleIdentity, Vec<AbilityResult<O>>)>, id: ModuleIdentity) -> bool {
    exists|k: int| 0 <= k < groups.len() && (#[trigger] groups[k]).0.0@ == id.0@
}

impl ModuleRegistry {
    /// The reports that belong in the results: those of every module that
    /// does not keep its output out, in their order.
    pub fn visible_results<O>(modules: &[ModuleDescriptor], results: Vec<AbilityResult<O>>) -> (r: Vec<
        AbilityResult<O>,
    >)
        ensures
            r@ == shown(modules@, results@),
    {
        let ghost all = results@;
        let mut rest = results;
        let mut kept: Vec<AbilityResult<O>> = Vec::new();
        let mut i: usize = 0;
        let total = rest.len();
        while rest.len() > 0
            invariant
                all.len() == total,
                i <= all.len(),
                rest@ == all.skip(i as int),
                kept@ == shown(modules@, all.take(i as int)),
            decreases rest.len(),
        {
            let x = rest.remove(0);
            proof {
                assert(all.take(i + 1) =~= all.take(i as int).push(x));
                assert(all.skip(i + 1) =~= all.skip(i as int).remove(0));
                all.take(i as int).lemma_filter_push(
                    x,
                    |y: AbilityResult<O>| !output_suppressed(modules@, y.module_identity),
                );
            }
            if !Self::is_output_suppressed(modules, &x.module_identity) {
                kept.push(x);
            }
            i = i + 1;
        }
        proof {
            assert(all.take(i as int) =~= all);
        }
        kept
    }

    /// The results by module: the reports that belong in the results (see
    /// [`ModuleRegistry::visible_results`]) gathered by module, each module's
    /// in their order, the groups in the order of each module's first report.
    pub fn group_by_module<O>(modules: &[ModuleDescriptor], results: Vec<AbilityResult<O>>) -> (r: Vec<
        (ModuleIdentity, Vec<AbilityResult<O>>),
    >)
        ensures
            is_grouping(shown(modules@, results@), r@),
            group_names(r@) == module_order(shown(modules@, results@)),
    {
        let kept = Self::visible_results(modules, results);
        Self::group_reports(kept)
    }

    /// Gathers reports by module, keeping the order of each module's reports;
    /// the groups come in the order of each module's first report.
    #[verifier::spinoff_prover]
    fn group_reports<O>(results: Vec<AbilityResult<O>>) -> (r: Vec<(ModuleIdentity, Vec<AbilityResult<O>>)>)
        ensures
            is_grouping(results@, r@),
            group_names(r@) == module_order(results@),
    {
        let ghost all = results@;
        let mut rest = results;
        let mut groups: Vec<(ModuleIdentity, Vec<AbilityResult<O>>)> = Vec::new();
        let mut i: usize = 0;
        let total = rest.len();
        while rest.len() > 0
            invariant
                all.len() == total,
                i <= all.len(),
                rest@ == all.skip(i as int),
                is_grouping(all.take(i as int), groups@),
                group_names(groups@) == module_order(all.take(i as int)),
            decreases rest.len(),
        {
            let x = rest.remove(0);
            let key = x.module_identity;
            let ghost done = all.take(i as int);
            proof {
                assert(all.take(i + 1) =~= done.push(x));
                assert(all.skip(i + 1) =~= all.skip(i as int).remove(0));
            }
            let mut k: usize = 0;
            while k < groups.len() && !str_equal(groups[k].0.0, key.0)
                invariant
                    k <= groups@.len(),
                    forall|j: int| 0 <= j < k ==> (#[trigger] groups@[j]).0.0@ != key.0@,
                decreases groups.len() - k,
            {
                k = k + 1;
            }
            let ghost old_groups = groups@;
            if k < groups.len() {
                let (gk, mut members) = groups.remove(k);
                members.push(x);
                groups.insert(k, (gk, members));
                proof {
                    assert(groups@ =~= old_groups.update(k as int, (gk, members)));
                    assert(group_names(groups@) =~= group_names(old_groups));
                    assert(done.push(x).drop_last() =~= done);
                    assert(group_names(old_groups)[k as int] == key.0@);
                    assert(module_order(done.push(x)) == module_order(done));
                    assert forall|a: int, b: int| 0 <= a < b < groups@.len() implies (
                    #[trigger] groups@[a]).0.0@ != (#[trigger] groups@[b]).0.0@ by {
                        assert(groups@[a].0 == old_groups[a].0);
                        assert(groups@[b].0 == old_groups[b].0);
                    }
                    assert forall|j: int| 0 <= j < groups@.len() implies (#[trigger] groups@[j]).1@
                        == of_module(done.push(x), groups@[j].0) && groups@[j].1@.len() > 0 by {
                        let id = groups@[j].0;
                        done.lemma_filter_push(x, |y: AbilityResult<O>| y.module_identity.0@ == id.0@);
                    }
                    assert forall|m: int| 0 <= m < done.push(x).len() implies #[trigger] has_group(
                        groups@,
                        done.push(x)[m].module_identity,
                    ) by {
                        if m < done.len() {
                            assert(done.push(x)[m] == done[m]);
                            assert(has_group(old_groups, done[m].module_identity));
                            let j = choose|j: int|
                                0 <= j < old_groups.len() && (#[trigger] old_groups[j]).0.0@
                                    == done[m].module_identity.0@;
                            assert(groups@[j].0 == old_groups[j].0);
                        } else {
                            assert(groups@[k as int].0.0@ == key.0@);
                        }
                    }
                }
            } else {
                let mut members: Vec<AbilityResult<O>> = Vec::new();
                members.push(x);
                groups.push((key, members));
                proof {
                    let pred = |y: AbilityResult<O>| y.module_identity.0@ == key.0@;
                    assert(group_names(groups@) =~= group_names(old_groups).push(key.0@));
                    assert(done.push(x).drop_last() =~= done);
                    assert(!group_names(old_groups).contains(key.0@)) by {
                        if group_names(old_groups).contains(key.0@) {
                            let j = choose|j: int|
                                0 <= j < group_names(old_groups).len() && group_names(old_groups)[j] == key.0@;
                            assert(old_groups[j].0.0@ != key.0@);
                        }
                    }
                    assert(module_order(done.push(x)) == module_order(done).push(key.0@));
                    assert forall|a: int, b: int| 0 <= a < b < groups@.len() implies (
                    #[trigger] groups@[a]).0.0@ != (#[trigger] groups@[b]).0.0@ by {
                        assert(groups@[a] == old_groups[a]);
                        if b < old_groups.len() {
                            assert(groups@[b] == old_groups[b]);
                        }
                    }
                    assert forall|m: int| 0 <= m < done.len() implies !pred(#[trigger] done[m]) by {
                        if pred(done[m]) {
                            assert(has_group(old_groups, done[m].module_identity));
                            let j = choose|j: int|
                                0 <= j < old_groups.len() && (#[trigger] old_groups[j]).0.0@
                                    == (#[trigger] done[m]).module_identity.0@;
                            assert(old_groups[j].0.0@ != key.0@);
                        }
                    }
                    assert(done.all(|y: AbilityResult<O>| !pred(y)));
                    done.lemma_all_neg_filter_empty(pred);
                    done.lemma_filter_push(x, pred);
                    assert(of_module(done.push(x), key) =~= seq![x]);
                    assert(members@ =~= seq![x]);
                    assert forall|j: int| 0 <= j < groups@.len() implies (#[trigger] groups@[j]).1@
                        == of_module(done.push(x), groups@[j].0) && groups@[j].1@.len() > 0 by {
                        let id = groups@[j].0;
                        done.lemma_filter_push(x, |y: AbilityResult<O>| y.module_identity.0@ == id.0@);
                    }
                    assert forall|m: int| 0 <= m < done.push(x).len() implies #[trigger] has_group(
                        groups@,
                        done.push(x)[m].module_identity,
                    ) by {
                        if m < done.len() {
                            assert(done.push(x)[m] == done[m]);
                            assert(has_group(old_groups, done[m].module_identity));
                            let j = choose|j: int|
                                0 <= j < old_groups.len() && (#[trigger] old_groups[j]).0.0@
                                    == done[m].module_identity.0@;
                            assert(groups@[j] == old_groups[j]);
                        } else {
                            assert(groups@[old_groups.len() as int].0.0@ == key.0@);
                        }
                    }
                }
            }
            proof {
                let d = done.push(x);
                assert(is_grouping(d, groups@));
                assert(all.take(i + 1) == d);
            }
            i = i + 1;
        }
        proof {
            assert(all.take(i as int) =~= all);
        }
        groups
    }
}

/// Filtering by two conditions gives the same sequence in either order.
proof fn lemma_filters_commute(s: Seq<usize>, a: spec_fn(usize) -> bool, b: spec_fn(usize) -> bool)
    ensures
        s.filter(a).filter(b) == s.filter(b).filter(a),
    decreases s.len(),
{
    reveal(Seq::filter);
    if s.len() > 0 {
        let prev = s.drop_last();
        let x = s.last();
        lemma_filters_commute(prev, a, b);
        prev.filter(a).lemma_filter_push(x, b);
        prev.filter(b).lemma_filter_push(x, a);
        assert(s.filter(a).filter(b) =~= s.filter(b).filter(a));
    }
}

/// Keeping only some of the abilities of a stable sort by priority keeps it
/// one: the abilities that remain are still in order of priority, with the
/// original order among equal priorities.
proof fn lemma_stable_sort_restricts(entries: Seq<AbilityEntry>, s: Seq<usize>, r: Seq<usize>, keep: spec_fn(usize) -> bool)
    requires
        is_stable_sort(entries, s, r),
    ensures
        is_stable_sort(entries, s.filter(keep), r.filter(keep)),
{
    assert forall|p: i32| #[trigger] of_priority(entries, r.filter(keep), p) == of_priority(entries, s.filter(keep), p) by {
        let prio = |x: usize| priority_at(entries, x) == p;
        lemma_filters_commute(r, keep, prio);
        lemma_filters_commute(s, keep, prio);
        assert(of_priority(entries, r, p) == of_priority(entries, s, p));
    }
    let f = r.filter(keep);
    assert forall|i: int, j: int| 0 <= i < j < f.len() implies priority_at(entries, #[trigger] f[i]) <= priority_at(
        entries,
        #[trigger] f[j],
    ) by {
        lemma_filter_keeps_order(r, keep, i, j);
        let (a, b) = choose|a: int, b: int| 0 <= a < b < r.len() && r[a] == f[i] && r[b] == f[j];
    }
}

/// Two elements of a filtered sequence come from two elements of the
/// sequence, in the same order.
proof fn lemma_filter_keeps_order(r: Seq<usize>, keep: spec_fn(usize) -> bool, i: int, j: int)
    requires
        0 <= i < j < r.filter(keep).len(),
    ensures
        exists|a: int, b: int| 0 <= a < b < r.len() && r[a] == r.filter(keep)[i] && r[b] == r.filter(keep)[j],
    decreases r.len(),
{
    reveal(Seq::filter);
    let prev = r.drop_last();
    let f = r.filter(keep);
    let fp = prev.filter(keep);
    if keep(r.last()) && j == f.len() - 1 {
        assert(f[j] == r[r.len() - 1]);
        assert(f[i] == fp[i]);
        prev.lemma_filter_contains_rev(keep, fp[i]);
        let a = choose|a: int| 0 <= a < prev.len() && prev[a] == fp[i];
        assert(r[a] == prev[a]);
        assert(r[a] == f[i] && r[r.len() - 1] == f[j]);
    } else {
        assert(f[i] == fp[i] && f[j] == fp[j]);
        lemma_filter_keeps_order(prev, keep, i, j);
        let (a, b) = choose|a: int, b: int| 0 <= a < b < prev.len() && prev[a] == fp[i] && prev[b] == fp[j];
        assert(r[a] == prev[a] && r[b] == prev[b]);
    }
}

/// Within the selection, the abilities of any one module run in order of
/// priority, with registry order among equal priorities: the selection
/// restricted to a module is the stable sort of that module's candidates.
pub proof fn law_module_abilities_in_priority_order(
    entries: Seq<AbilityEntry>,
    candidates: Seq<usize>,
    r: Seq<usize>,
    id: ModuleIdentity,
)
    requires
        is_stable_sort(entries, candidates, r),
    ensures
        is_stable_sort(
            entries,
            candidates.filter(|x: usize| entries[x as int].module_identity.0@ == id.0@),
            r.filter(|x: usize| entries[x as int].module_identity.0@ == id.0@),
        ),
{
    lemma_stable_sort_restricts(entries, candidates, r, |x: usize| entries[x as int].module_identity.0@ == id.0@);
}

/// The positions `a..b`, in order.
pub open spec fn positions(a: usize, b: usize) -> Seq<usize> {
    Seq::new((b - a) as nat, |i: int| (a + i) as usize)
}

/// The positions that the batches of `plan` cover, batch after batch.
pub open spec fn plan_positions(plan: Seq<(usize, usize)>) -> Seq<usize>
    decreases plan.len(),
{
    if plan.len() == 0 {
        Seq::empty()
    } else {
        plan_positions(plan.drop_last()) + positions(plan.last().0, plan.last().1)
    }
}

/// Consecutive non-empty batches cover the positions from the first batch's
/// start to the last batch's end, in order.
proof fn lemma_consecutive_positions(plan: Seq<(usize, usize)>)
    requires
        plan.len() > 0,
        forall|k: int| 0 <= k < plan.len() ==> (#[trigger] plan[k]).0 < plan[k].1,
        forall|k: int| 0 <= k < plan.len() - 1 ==> (#[trigger] plan[k]).1 == plan[k + 1].0,
    ensures
        plan[0].0 < plan.last().1,
        plan_positions(plan) == positions(plan[0].0, plan.last().1),
    decreases plan.len(),
{
    if plan.len() == 1 {
        assert(plan.drop_last() =~= Seq::<(usize, usize)>::empty());
        assert(plan_positions(plan.drop_last()) == Seq::<usize>::empty());
        assert(plan_positions(plan) == Seq::<usize>::empty() + positions(plan[0].0, plan[0].1));
        assert(plan_positions(plan) =~= positions(plan[0].0, plan.last().1));
    } else {
        let prev = plan.drop_last();
        assert forall|k: int| 0 <= k < prev.len() - 1 implies (#[trigger] prev[k]).1 == prev[k + 1].0 by {
            assert(prev[k] == plan[k] && prev[k + 1] == plan[k + 1]);
        }
        lemma_consecutive_positions(prev);
        assert(prev.last() == plan[plan.len() - 2]);
        assert(prev[0] == plan[0]);
        let left = positions(plan[0].0, prev.last().1);
        let right = positions(plan.last().0, plan.last().1);
        assert(plan_positions(plan) == left + right);
        assert forall|i: int| 0 <= i < (left + right).len() implies (left + right)[i] == positions(
            plan[0].0,
            plan.last().1,
        )[i] by {
            if i < left.len() {
                assert((left + right)[i] == left[i]);
            } else {
                assert((left + right)[i] == right[i - left.len()]);
            }
        }
        assert(plan_positions(plan) =~= positions(plan[0].0, plan.last().1));
    }
}

/// Whatever the strategy, its plan runs every position of the list once, in
/// list order: the strategies differ only in what runs at the same time, so
/// the reports come out in the same order under each.
pub proof fn law_plan_runs_list_in_order(plan: Seq<(usize, usize)>, n: nat)
    requires
        is_partition(plan, n),
        n <= usize::MAX,
    ensures
        plan_positions(plan) == positions(0, n as usize),
{
    if plan.len() == 0 {
        assert(positions(0, 0) =~= Seq::<usize>::empty());
    } else {
        lemma_consecutive_positions(plan);
    }
}

/// A stable sort holds exactly the elements of what it sorts.
proof fn lemma_stable_sort_members(entries: Seq<AbilityEntry>, s: Seq<usize>, r: Seq<usize>)
    requires
        is_stable_sort(entries, s, r),
    ensures
        forall|x: usize| #[trigger] r.contains(x) <==> s.contains(x),
{
    assert forall|x: usize| #[trigger] r.contains(x) <==> s.contains(x) by {
        let p = priority_at(entries, x);
        let pred = |y: usize| priority_at(entries, y) == p;
        assert(of_priority(entries, r, p) == of_priority(entries, s, p));
        if r.contains(x) {
            let i = choose|i: int| 0 <= i < r.len() && r[i] == x;
            r.lemma_filter_contains(pred, i);
            s.lemma_filter_contains_rev(pred, x);
        }
        if s.contains(x) {
            let i = choose|i: int| 0 <= i < s.len() && s[i] == x;
            s.lemma_filter_contains(pred, i);
            r.lemma_filter_contains_rev(pred, x);
        }
    }
}

/// The candidates of one module are exactly the positions of its abilities
/// that report themselves enabled and run in the mode.
proof fn lemma_targets_members(entries: Seq<AbilityEntry>, module_id: ModuleIdentity, mode: AbilityExecutionMode)
    requires
        entries.len() <= usize::MAX,
    ensures
        forall|x: usize|
            #[trigger] targets_of(entries, module_id, mode).contains(x) <==> (x < entries.len()
                && entries[x as int].is_enabled && entries[x as int].module_identity.0@ == module_id.0@
                && entries[x as int].descriptor.execution_mode == mode),
{
    lemma_targets_qualify(entries, module_id, mode);
    lemma_targets_cover(entries, module_id, mode);
    let t = targets_of(entries, module_id, mode);
    assert forall|x: usize| #[trigger] t.contains(x) <==> (x < entries.len() && entries[x as int].is_enabled
        && entries[x as int].module_identity.0@ == module_id.0@ && entries[x as int].descriptor.execution_mode
        == mode) by {
        if t.contains(x) {
            let i = choose|i: int| 0 <= i < t.len() && t[i] == x;
            assert(t[i] < entries.len() && is_target(entries[t[i] as int], module_id, mode));
        }
        if x < entries.len() && entries[x as int].is_enabled && entries[x as int].module_identity.0@
            == module_id.0@ && entries[x as int].descriptor.execution_mode == mode {
            assert(is_target(entries[x as int], module_id, mode));
            let k = choose|k: int| 0 <= k < t.len() && t[k] == x;
            assert(t[k] == x);
        }
    }
}

/// The candidates over all modules are exactly the abilities that report
/// themselves enabled, run in the mode, and belong to a registered module
/// (by identity) that is not disabled.
proof fn lemma_all_targets_members(
    modules: Seq<ModuleDescriptor>,
    entries: Seq<AbilityEntry>,
    mode: AbilityExecutionMode,
)
    requires
        entries.len() <= usize::MAX,
    ensures
        forall|x: usize|
            #[trigger] all_targets_of(modules, entries, mode).contains(x) <==> (x < entries.len()
                && entries[x as int].is_enabled && entries[x as int].descriptor.execution_mode == mode
                && exists|m: int|
                0 <= m < modules.len() && !(#[trigger] modules[m]).is_disabled && modules[m].identity.0@
                    == entries[x as int].module_identity.0@),
    decreases modules.len(),
{
    if modules.len() > 0 {
        let prev = modules.drop_last();
        lemma_all_targets_members(prev, entries, mode);
        let last = modules.last();
        lemma_targets_members(entries, last.identity, mode);
        let a = all_targets_of(prev, entries, mode);
        let t = targets_of(entries, last.identity, mode);
        assert forall|x: usize| #[trigger] all_targets_of(modules, entries, mode).contains(x) <==> (x
            < entries.len() && entries[x as int].is_enabled && entries[x as int].descriptor.execution_mode == mode
            && exists|m: int|
            0 <= m < modules.len() && !(#[trigger] modules[m]).is_disabled && modules[m].identity.0@
                == entries[x as int].module_identity.0@) by {
            let whole = all_targets_of(modules, entries, mode);
            if !last.is_disabled {
                assert(whole == a + t);
                if whole.contains(x) {
                    let i = choose|i: int| 0 <= i < whole.len() && whole[i] == x;
                    if i < a.len() {
                        assert(a[i] == x);
                        assert(a.contains(x));
                        let m = choose|m: int|
                            0 <= m < prev.len() && !(#[trigger] prev[m]).is_disabled && prev[m].identity.0@
                                == entries[x as int].module_identity.0@;
                        assert(modules[m] == prev[m]);
                    } else {
                        assert(t[i - a.len()] == x);
                        assert(t.contains(x));
                        assert(modules[modules.len() - 1] == last);
                    }
                }
                if x < entries.len() && entries[x as int].is_enabled && entries[x as int].descriptor.execution_mode
                    == mode && exists|m: int|
                    0 <= m < modules.len() && !(#[trigger] modules[m]).is_disabled && modules[m].identity.0@
                        == entries[x as int].module_identity.0@ {
                    let m = choose|m: int|
                        0 <= m < modules.len() && !(#[trigger] modules[m]).is_disabled && modules[m].identity.0@
                            == entries[x as int].module_identity.0@;
                    if m < modules.len() - 1 {
                        assert(prev[m] == modules[m]);
                        assert(a.contains(x));
                        let i = choose|i: int| 0 <= i < a.len() && a[i] == x;
                        assert(whole[i] == x);
                    } else {
                        assert(t.contains(x));
                        let i = choose|i: int| 0 <= i < t.len() && t[i] == x;
                        assert(whole[a.len() + i] == x);
                    }
                }
            } else {
                assert(whole == a);
                if exists|m: int|
                    0 <= m < modules.len() && !(#[trigger] modules[m]).is_disabled && modules[m].identity.0@
                        == entries[x as int].module_identity.0@ {
                    let m = choose|m: int|
                        0 <= m < modules.len() && !(#[trigger] modules[m]).is_disabled && modules[m].identity.0@
                            == entries[x as int].module_identity.0@;
                    assert(m < modules.len() - 1);
                    assert(prev[m] == modules[m]);
                }
                if a.contains(x) {
                    let m = choose|m: int|
                        0 <= m < prev.len() && !(#[trigger] prev[m]).is_disabled && prev[m].identity.0@
                            == entries[x as int].module_identity.0@;
                    assert(modules[m] == prev[m]);
                }
            }
        }
    }
}

/// The abilities run in one batch over all modules are exactly those that
/// report themselves enabled (whatever their descriptor's default says),
/// run in the requested mode, and belong, by identity, to a registered
/// module that is not disabled.
pub proof fn law_select_all_is_exact(
    modules: Seq<ModuleDescriptor>,
    entries: Seq<AbilityEntry>,
    mode: AbilityExecutionMode,
    r: Seq<usize>,
)
    requires
        entries.len() <= usize::MAX,
        is_stable_sort(entries, all_targets_of(modules, entries, mode), r),
    ensures
        forall|i: int| 0 <= i < r.len() ==> #[trigger] r[i] < entries.len(),
        forall|j: int|
            0 <= j < entries.len() ==> (r.contains(j as usize) <==> ((#[trigger] entries[j]).is_enabled
                && entries[j].descriptor.execution_mode == mode && exists|m: int|
                0 <= m < modules.len() && !(#[trigger] modules[m]).is_disabled && modules[m].identity.0@
                    == entries[j].module_identity.0@)),
        forall|i: int, j: int|
            0 <= i < j < r.len() ==> entries[#[trigger] r[i] as int].descriptor.priority <= entries[#[trigger] r[j] as int].descriptor.priority,
{
    lemma_stable_sort_members(entries, all_targets_of(modules, entries, mode), r);
    lemma_all_targets_members(modules, entries, mode);
    assert forall|i: int| 0 <= i < r.len() implies #[trigger] r[i] < entries.len() by {
        assert(r.contains(r[i]));
    }
    assert forall|j: int| 0 <= j < entries.len() implies (r.contains(j as usize) <==> ((
    #[trigger] entries[j]).is_enabled && entries[j].descriptor.execution_mode == mode && exists|m: int|
        0 <= m < modules.len() && !(#[trigger] modules[m]).is_disabled && modules[m].identity.0@
            == entries[j].module_identity.0@)) by {
        assert(entries[(j as usize) as int] == entries[j]);
    }
}

/// The modules that are initialised are exactly those that are not
/// disabled, whatever their output flags say, each once and in registry
/// order; they are shut down in the reverse of that order.
pub proof fn law_active_modules_exact(modules: Seq<ModuleDescriptor>)
    requires
        modules.len() <= usize::MAX,
    ensures
        forall|i: int| 0 <= i < active_of(modules).len() ==> #[trigger] active_of(modules)[i] < modules.len(),
        forall|m: int|
            0 <= m < modules.len() ==> (active_of(modules).contains(m as usize) <==> !(
            #[trigger] modules[m]).is_disabled),
        forall|i: int, j: int|
            0 <= i < j < active_of(modules).len() ==> #[trigger] active_of(modules)[i] < #[trigger] active_of(
                modules,
            )[j],
    decreases modules.len(),
{
    if modules.len() > 0 {
        let prev = modules.drop_last();
        law_active_modules_exact(prev);
        let a = active_of(prev);
        let n = modules.len() - 1;
        assert forall|m: int| 0 <= m < modules.len() implies (active_of(modules).contains(m as usize) <==> !(
        #[trigger] modules[m]).is_disabled) by {
            if m < n {
                assert(prev[m] == modules[m]);
                if active_of(modules).contains(m as usize) {
                    let i = choose|i: int| 0 <= i < active_of(modules).len() && active_of(modules)[i] == m as usize;
                    if i < a.len() {
                        assert(a[i] == m as usize);
                    }
                }
                if a.contains(m as usize) {
                    let i = choose|i: int| 0 <= i < a.len() && a[i] == m as usize;
                    assert(active_of(modules)[i] == m as usize);
                }
            } else {
                if !modules[m].is_disabled {
                    assert(active_of(modules)[a.len() as int] == m as usize);
                } else {
                    if active_of(modules).contains(m as usize) {
                        let i = choose|i: int| 0 <= i < active_of(modules).len() && active_of(modules)[i] == m as usize;
                        assert(a[i] < prev.len());
                    }
                }
            }
        }
    }
}

/// The reports kept in the results are decided by their module's output
/// flags alone: a report, failed or not, is kept exactly when no registered
/// module of its identity suppresses its output, forcibly or at run time;
/// the kept reports keep their order, and when no module suppresses output
/// every report is kept.
pub proof fn law_visible_results_exact<O>(modules: Seq<ModuleDescriptor>, s: Seq<AbilityResult<O>>)
    ensures
        forall|i: int|
            0 <= i < s.len() && !(exists|m: int|
                0 <= m < modules.len() && (#[trigger] modules[m]).identity.0@ == s[i].module_identity.0@ && (
                modules[m].force_disabled_output || modules[m].auto_disable_output)) ==> shown(modules, s).contains(
                #[trigger] s[i],
            ),
        forall|x: AbilityResult<O>|
            #[trigger] shown(modules, s).contains(x) ==> s.contains(x) && !(exists|m: int|
                0 <= m < modules.len() && (#[trigger] modules[m]).identity.0@ == x.module_identity.0@ && (
                modules[m].force_disabled_output || modules[m].auto_disable_output)),
        (forall|m: int|
            0 <= m < modules.len() ==> !(#[trigger] modules[m]).force_disabled_output
                && !modules[m].auto_disable_output) ==> shown(modules, s) == s,
{
    let pred = |x: AbilityResult<O>| !output_suppressed(modules, x.module_identity);
    assert forall|i: int|
        0 <= i < s.len() && !(exists|m: int|
            0 <= m < modules.len() && (#[trigger] modules[m]).identity.0@ == s[i].module_identity.0@ && (
            modules[m].force_disabled_output || modules[m].auto_disable_output)) implies shown(modules, s).contains(
        #[trigger] s[i],
    ) by {
        s.lemma_filter_contains(pred, i);
    }
    assert forall|x: AbilityResult<O>| #[trigger] shown(modules, s).contains(x) implies s.contains(x) && !(exists|m: int|
        0 <= m < modules.len() && (#[trigger] modules[m]).identity.0@ == x.module_identity.0@ && (
        modules[m].force_disabled_output || modules[m].auto_disable_output)) by {
        s.lemma_filter_contains_rev(pred, x);
        let k = choose|k: int| 0 <= k < shown(modules, s).len() && shown(modules, s)[k] == x;
        s.lemma_filter_pred(pred, k);
    }
    if forall|m: int|
        0 <= m < modules.len() ==> !(#[trigger] modules[m]).force_disabled_output
            && !modules[m].auto_disable_output {
        lemma_filter_all_kept(s, pred);
    }
}

/// Filtering by a condition that every element meets keeps the sequence.
proof fn lemma_filter_all_kept<A>(s: Seq<A>, pred: spec_fn(A) -> bool)
    requires
        forall|i: int| 0 <= i < s.len() ==> pred(#[trigger] s[i]),
    ensures
        s.filter(pred) == s,
    decreases s.len(),
{
    reveal(Seq::filter);
    if s.len() > 0 {
        let prev = s.drop_last();
        assert forall|i: int| 0 <= i < prev.len() implies pred(#[trigger] prev[i]) by {
            assert(prev[i] == s[i]);
        }
        lemma_filter_all_kept(prev, pred);
        assert(pred(s[s.len() - 1]));
        assert(s.filter(pred) =~= s);
    }
}

/// The candidates of one module come in increasing registry position.
proof fn lemma_targets_increasing(entries: Seq<AbilityEntry>, module_id: ModuleIdentity, mode: AbilityExecutionMode)
    requires
        entries.len() <= usize::MAX,
    ensures
        forall|i: int, j: int|
            0 <= i < j < targets_of(entries, module_id, mode).len() ==> #[trigger] targets_of(entries, module_id, mode)[i]
                < #[trigger] targets_of(entries, module_id, mode)[j],
    decreases entries.len(),
{
    if entries.len() > 0 {
        let prev = entries.drop_last();
        lemma_targets_increasing(prev, module_id, mode);
        lemma_targets_qualify(prev, module_id, mode);
        let tp = targets_of(prev, module_id, mode);
        let t = targets_of(entries, module_id, mode);
        assert forall|i: int, j: int| 0 <= i < j < t.len() implies #[trigger] t[i] < #[trigger] t[j] by {
            if j < tp.len() {
                assert(t[i] == tp[i] && t[j] == tp[j]);
            } else {
                assert(t[i] == tp[i]);
                assert(tp[i] < prev.len());
            }
        }
    }
}

/// Filtering a strictly increasing sequence leaves it strictly increasing.
proof fn lemma_filter_increasing(s: Seq<usize>, pred: spec_fn(usize) -> bool)
    requires
        forall|i: int, j: int| 0 <= i < j < s.len() ==> #[trigger] s[i] < #[trigger] s[j],
    ensures
        forall|i: int, j: int| 0 <= i < j < s.filter(pred).len() ==> #[trigger] s.filter(pred)[i] < #[trigger] s.filter(pred)[j],
    decreases s.len(),
{
    reveal(Seq::filter);
    if s.len() > 0 {
        let prev = s.drop_last();
        assert forall|i: int, j: int| 0 <= i < j < prev.len() implies #[trigger] prev[i] < #[trigger] prev[j] by {
            assert(prev[i] == s[i] && prev[j] == s[j]);
        }
        lemma_filter_increasing(prev, pred);
        let fp = prev.filter(pred);
        let f = s.filter(pred);
        assert forall|i: int, j: int| 0 <= i < j < f.len() implies #[trigger] f[i] < #[trigger] f[j] by {
            if j < fp.len() {
                assert(f[i] == fp[i] && f[j] == fp[j]);
            } else {
                assert(f[i] == fp[i]);
                assert(fp.contains(fp[i]));
                prev.lemma_filter_contains_rev(pred, fp[i]);
                let k = choose|k: int| 0 <= k < prev.len() && prev[k] == fp[i];
                assert(s[k] == prev[k]);
                assert(f[j] == s[s.len() - 1]);
            }
        }
    }
}

/// When the elements of `r` that meet `pred` are in strictly increasing
/// order, so are any two such elements of `r` taken in the order of `r`.
proof fn lemma_filter_orders(r: Seq<usize>, pred: spec_fn(usize) -> bool, i: int, j: int)
    requires
        0 <= i < j < r.len(),
        pred(r[i]),
        pred(r[j]),
        forall|a: int, b: int| 0 <= a < b < r.filter(pred).len() ==> #[trigger] r.filter(pred)[a] < #[trigger] r.filter(pred)[b],
    ensures
        r[i] < r[j],
    decreases r.len(),
{
    reveal(Seq::filter);
    let prev = r.drop_last();
    let fp = prev.filter(pred);
    let f = r.filter(pred);
    assert(prev[i] == r[i]);
    if j == r.len() - 1 {
        prev.lemma_filter_contains(pred, i);
        let k = choose|k: int| 0 <= k < fp.len() && fp[k] == r[i];
        assert(f[k] == fp[k]);
        assert(f[fp.len() as int] == r[j]);
    } else {
        assert(prev[j] == r[j]);
        assert forall|a: int, b: int| 0 <= a < b < fp.len() implies #[trigger] fp[a] < #[trigger] fp[b] by {
            assert(f[a] == fp[a] && f[b] == fp[b]);
        }
        lemma_filter_orders(prev, pred, i, j);
    }
}

/// Reports grouped by module land with their own module: every report in a
/// group belongs to the group's module, every report lands in the group of
/// its module, and no module has two groups.
pub proof fn law_grouping_by_module_identity<O>(
    results: Seq<AbilityResult<O>>,
    groups: Seq<(ModuleIdentity, Vec<AbilityResult<O>>)>,
)
    requires
        is_grouping(results, groups),
    ensures
        forall|k: int, i: int|
            0 <= k < groups.len() && 0 <= i < groups[k].1@.len() ==> (#[trigger] groups[k].1@[i]).module_identity.0@
                == groups[k].0.0@ && results.contains(groups[k].1@[i]),
        forall|i: int|
            0 <= i < results.len() ==> exists|k: int|
                0 <= k < groups.len() && groups[k].0.0@ == (#[trigger] results[i]).module_identity.0@
                    && groups[k].1@.contains(results[i]),
        forall|a: int, b: int|
            0 <= a < b < groups.len() ==> (#[trigger] groups[a]).0.0@ != (#[trigger] groups[b]).0.0@,
{
    assert forall|k: int, i: int|
        0 <= k < groups.len() && 0 <= i < groups[k].1@.len() implies (#[trigger] groups[k].1@[i]).module_identity.0@
            == groups[k].0.0@ && results.contains(groups[k].1@[i]) by {
        let id = groups[k].0;
        let pred = |x: AbilityResult<O>| x.module_identity.0@ == id.0@;
        assert(groups[k].1@ == of_module(results, id));
        results.lemma_filter_pred(pred, i);
        results.lemma_filter_contains_rev(pred, groups[k].1@[i]);
    }
    assert forall|i: int| 0 <= i < results.len() implies exists|k: int|
        0 <= k < groups.len() && groups[k].0.0@ == (#[trigger] results[i]).module_identity.0@
            && groups[k].1@.contains(results[i]) by {
        assert(has_group(groups, results[i].module_identity));
        let k = choose|k: int| 0 <= k < groups.len() && (#[trigger] groups[k]).0.0@ == results[i].module_identity.0@;
        let id = groups[k].0;
        let pred = |x: AbilityResult<O>| x.module_identity.0@ == id.0@;
        assert(groups[k].1@ == of_module(results, id));
        results.lemma_filter_contains(pred, i);
    }
}

/// Grouping by priority cuts the list exactly where the priority changes:
/// two neighbouring positions share a batch exactly when they have the same
/// priority, and the batches cover the list from its start to its end.
pub proof fn law_priority_batches_cut_at_changes(priorities: Seq<i32>, batches: Seq<(usize, usize)>)
    requires
        is_priority_grouping(priorities, batches),
    ensures
        batches.len() == 0 <==> priorities.len() == 0,
        batches.len() > 0 ==> batches[0].0 == 0 && batches.last().1 == priorities.len(),
        forall|k: int|
            0 <= k < batches.len() ==> (#[trigger] batches[k]).0 < batches[k].1 && batches[k].1 <= priorities.len(),
        forall|k: int|
            0 <= k < batches.len() - 1 ==> (#[trigger] batches[k]).1 == batches[k + 1].0 && priorities[batches[k].1
                - 1] != priorities[batches[k].1 as int],
        forall|k: int, i: int|
            0 <= k < batches.len() && (#[trigger] batches[k]).0 < i < batches[k].1 ==> #[trigger] priorities[i - 1]
                == priorities[i],
{
    if batches.len() > 0 {
        lemma_consecutive_positions(batches);
        assert forall|k: int|
            0 <= k < batches.len() implies (#[trigger] batches[k]).0 < batches[k].1 && batches[k].1 <= priorities.len() by {
            lemma_batch_end_bounded(batches, k);
        }
        assert forall|k: int| 0 <= k < batches.len() - 1 implies (#[trigger] batches[k]).1 == batches[k + 1].0
            && priorities[batches[k].1 - 1] != priorities[batches[k].1 as int] by {
            assert(batches[k + 1].0 == batches[k].1);
            assert(priorities[(batches[k + 1]).0 - 1] != priorities[batches[k + 1].0 as int]);
        }
        assert forall|k: int, i: int|
            0 <= k < batches.len() && (#[trigger] batches[k]).0 < i < batches[k].1 implies #[trigger] priorities[i - 1]
                == priorities[i] by {
            assert(priorities[i - 1] == priorities[batches[k].0 as int]);
            assert(priorities[i] == priorities[batches[k].0 as int]);
        }
    }
}

/// In consecutive non-empty batches, each batch ends no later than the last one.
proof fn lemma_batch_end_bounded(batches: Seq<(usize, usize)>, k: int)
    requires
        0 <= k < batches.len(),
        forall|j: int| 0 <= j < batches.len() ==> (#[trigger] batches[j]).0 < batches[j].1,
        forall|j: int| 0 <= j < batches.len() - 1 ==> (#[trigger] batches[j]).1 == batches[j + 1].0,
    ensures
        batches[k].1 <= batches.last().1,
    decreases batches.len() - k,
{
    if k < batches.len() - 1 {
        lemma_batch_end_bounded(batches, k + 1);
        assert(batches[k].1 == batches[k + 1].0);
        assert(batches[k + 1].0 < batches[k + 1].1);
    }
}

} // verus!
