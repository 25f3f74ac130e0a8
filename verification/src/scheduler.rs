//! Operator scheduling: which visualizers, inputs and outputs run in a frame.
//!
//! Visualizers are chosen by priority: the highest non-negative priority wins
//! (ties run together), priority `0` is never selected, and priority `-1`
//! always runs after the winners.

use vstd::prelude::*;

use crate::text::str_eq;

verus! {

/// Visualizer metadata needed by the scheduler.
#[derive(Clone, Debug, PartialEq, Eq)]
pub struct VisualizerSpec {
    /// Stable visualizer name.
    pub name: &'static str,
    /// Current priority. Priority 0 is never selected. Priority -1 is always-run.
    pub priority: i32,
    /// Whether all required inputs are enabled.
    pub inputs_enabled: bool,
}

/// Active visualizer names for one output frame.
#[derive(Clone, Debug, Default, PartialEq, Eq)]
pub struct ScheduledFrame {
    /// Highest selected non-negative priority.
    pub top_priority: i32,
    /// Visualizers selected for this frame.
    pub active: Vec<&'static str>,
}

/// The winning priority: the largest priority among the visualizers whose
/// inputs are enabled, and never less than 1.
pub open spec fn top_priority_of(specs: Seq<VisualizerSpec>) -> int
    decreases specs.len(),
{
    if specs.len() == 0 {
        1
    } else {
        let rest = top_priority_of(specs.drop_last());
        let last = specs.last();
        if last.inputs_enabled && last.priority > rest {
            last.priority as int
        } else {
            rest
        }
    }
}

/// Names, in order, of the visualizers with enabled inputs and priority `p`.
pub open spec fn names_with_priority(specs: Seq<VisualizerSpec>, p: int) -> Seq<&'static str>
    decreases specs.len(),
{
    if specs.len() == 0 {
        Seq::empty()
    } else {
        let rest = names_with_priority(specs.drop_last(), p);
        let last = specs.last();
        if last.inputs_enabled && last.priority == p {
            rest.push(last.name)
        } else {
            rest
        }
    }
}

/// The selected names: the winners of the top priority, then the always-run ones.
pub open spec fn scheduled_names(specs: Seq<VisualizerSpec>) -> Seq<&'static str> {
    names_with_priority(specs, top_priority_of(specs)) + names_with_priority(specs, -1)
}

/// The winning priority is at least 1, bounds every enabled priority, and is
/// either 1 or the priority of some enabled visualizer.
pub proof fn lemma_top_priority_is_max(specs: Seq<VisualizerSpec>)
    ensures
        top_priority_of(specs) >= 1,
        top_priority_of(specs) <= i32::MAX,
        forall|i: int|
            0 <= i < specs.len() && #[trigger] specs[i].inputs_enabled ==> specs[i].priority
                <= top_priority_of(specs),
        top_priority_of(specs) == 1 || exists|i: int|
            0 <= i < specs.len() && #[trigger] specs[i].inputs_enabled && specs[i].priority
                == top_priority_of(specs),
    decreases specs.len(),
{
    if specs.len() > 0 {
        let rest = specs.drop_last();
        lemma_top_priority_is_max(rest);
        assert forall|i: int|
            0 <= i < specs.len() && #[trigger] specs[i].inputs_enabled implies specs[i].priority
                <= top_priority_of(specs) by {
            if i < specs.len() - 1 {
                assert(rest[i] == specs[i]);
            }
        }
        if top_priority_of(specs) != 1 {
            if top_priority_of(specs) == top_priority_of(rest) {
                let j = choose|j: int|
                    0 <= j < rest.len() && #[trigger] rest[j].inputs_enabled && rest[j].priority
                        == top_priority_of(rest);
                assert(specs[j] == rest[j]);
            } else {
                assert(specs[specs.len() - 1].inputs_enabled);
            }
        }
    }
}

/// No enabled visualizer carries a priority above the winning one.
proof fn lemma_no_names_above_top(specs: Seq<VisualizerSpec>, p: int)
    requires
        p > top_priority_of(specs),
    ensures
        names_with_priority(specs, p) == Seq::<&'static str>::empty(),
    decreases specs.len(),
{
    if specs.len() > 0 {
        lemma_no_names_above_top(specs.drop_last(), p);
    }
}

/// Select visualizers using Spectrum's priority rules.
pub fn schedule_visualizers(specs: &[VisualizerSpec]) -> (frame: ScheduledFrame)
    ensures
        frame.top_priority == top_priority_of(specs@),
        frame.active@ == scheduled_names(specs@),
{
    let mut top_priority: i32 = 1;
    let mut active: Vec<&'static str> = Vec::new();
    let mut always: Vec<&'static str> = Vec::new();
    let mut i: usize = 0;
    while i < specs.len()
        invariant
            i <= specs@.len(),
            top_priority == top_priority_of(specs@.take(i as int)),
            active@ == names_with_priority(specs@.take(i as int), top_priority as int),
            always@ == names_with_priority(specs@.take(i as int), -1),
        decreases specs@.len() - i,
    {
        let spec = &specs[i];
        let ghost prefix = specs@.take(i as int);
        let ghost next = specs@.take(i + 1);
        proof {
            assert(next.drop_last() =~= prefix);
            assert(next.last() == specs@[i as int]);
            lemma_top_priority_is_max(prefix);
        }
        if spec.inputs_enabled {
            if spec.priority == -1 {
                always.push(spec.name);
            } else if spec.priority > top_priority {
                proof {
                    lemma_no_names_above_top(prefix, spec.priority as int);
                }
                top_priority = spec.priority;
                active.clear();
                active.push(spec.name);
                assert(active@ =~= names_with_priority(next, top_priority as int));
            } else if spec.priority == top_priority {
                active.push(spec.name);
            }
        }
        i += 1;
    }
    proof {
        assert(specs@.take(specs@.len() as int) =~= specs@);
    }
    active.append(&mut always);
    ScheduledFrame { top_priority, active }
}

} // verus!

verus! {

/// Input metadata used by the full frame scheduler.
#[derive(Clone, Debug, PartialEq, Eq)]
pub struct InputSpec {
    /// Stable input name.
    pub name: &'static str,
    /// Whether the input is enabled in config/hardware.
    pub enabled: bool,
    /// Whether the input should run whenever the operator runs.
    pub always_active: bool,
}

/// Visualizer metadata with explicit input dependencies.
#[derive(Clone, Debug, PartialEq, Eq)]
pub struct FullVisualizerSpec {
    /// Stable visualizer name.
    pub name: &'static str,
    /// Current priority.
    pub priority: i32,
    /// Required input names.
    pub inputs: &'static [&'static str],
}

/// Output metadata used by the full frame scheduler.
#[derive(Clone, Debug, PartialEq, Eq)]
pub struct OutputSpec {
    /// Stable output name.
    pub name: &'static str,
    /// Whether the output is enabled by hardware or simulation.
    pub enabled: bool,
    /// Visualizers registered for this output.
    pub visualizers: Vec<FullVisualizerSpec>,
}

/// Full operator-frame schedule.
#[derive(Clone, Debug, Default, PartialEq, Eq)]
pub struct OperatorFrame {
    /// Active input names, in update order.
    pub active_inputs: Vec<&'static str>,
    /// Active visualizer names, in update order.
    pub active_visualizers: Vec<&'static str>,
    /// Active output names, in update order.
    pub active_outputs: Vec<&'static str>,
}

/// Some name in `names` spells `name`.
pub open spec fn names_contain(names: Seq<&'static str>, name: Seq<char>) -> bool {
    exists|k: int| 0 <= k < names.len() && (#[trigger] names[k])@ == name
}

/// Some input called `name` is enabled.
pub open spec fn input_is_enabled(inputs: Seq<InputSpec>, name: Seq<char>) -> bool {
    exists|i: int| 0 <= i < inputs.len() && (#[trigger] inputs[i]).name@ == name && inputs[i].enabled
}

/// Every input named in `required` is enabled.
pub open spec fn inputs_all_enabled(inputs: Seq<InputSpec>, required: Seq<&'static str>) -> bool {
    forall|j: int| 0 <= j < required.len() ==> input_is_enabled(inputs, (#[trigger] required[j])@)
}

/// The priority-scheduler view of a visualizer, given the inputs.
pub open spec fn candidate(inputs: Seq<InputSpec>, v: FullVisualizerSpec) -> VisualizerSpec {
    VisualizerSpec {
        name: v.name,
        priority: v.priority,
        inputs_enabled: inputs_all_enabled(inputs, v.inputs@),
    }
}

/// The candidates of an output's visualizers, in registration order.
pub open spec fn candidates(inputs: Seq<InputSpec>, visualizers: Seq<FullVisualizerSpec>) -> Seq<
    VisualizerSpec,
> {
    visualizers.map_values(|v: FullVisualizerSpec| candidate(inputs, v))
}

/// The visualizer names an output runs: none when it is disabled.
pub open spec fn output_schedule(inputs: Seq<InputSpec>, output: OutputSpec) -> Seq<&'static str> {
    if output.enabled {
        scheduled_names(candidates(inputs, output.visualizers@))
    } else {
        Seq::empty()
    }
}

/// Names of the outputs that run some visualizer, in order.
pub open spec fn active_output_names(inputs: Seq<InputSpec>, outputs: Seq<OutputSpec>) -> Seq<
    &'static str,
>
    decreases outputs.len(),
{
    if outputs.len() == 0 {
        Seq::empty()
    } else {
        let rest = active_output_names(inputs, outputs.drop_last());
        if output_schedule(inputs, outputs.last()).len() > 0 {
            rest.push(outputs.last().name)
        } else {
            rest
        }
    }
}

/// `acc` followed by the names of `names` not already spelled before them.
pub open spec fn merge_new_names(acc: Seq<&'static str>, names: Seq<&'static str>) -> Seq<
    &'static str,
>
    decreases names.len(),
{
    if names.len() == 0 {
        acc
    } else {
        let merged = merge_new_names(acc, names.drop_last());
        if names_contain(merged, names.last()@) {
            merged
        } else {
            merged.push(names.last())
        }
    }
}

/// The visualizers of all outputs, first occurrence of each name kept.
pub open spec fn active_visualizer_names(inputs: Seq<InputSpec>, outputs: Seq<OutputSpec>) -> Seq<
    &'static str,
>
    decreases outputs.len(),
{
    if outputs.len() == 0 {
        Seq::empty()
    } else {
        merge_new_names(
            active_visualizer_names(inputs, outputs.drop_last()),
            output_schedule(inputs, outputs.last()),
        )
    }
}

/// Some visualizer registered on any output, whose name is active, requires
/// the input `name`.
pub open spec fn input_is_needed(
    outputs: Seq<OutputSpec>,
    active: Seq<&'static str>,
    name: Seq<char>,
) -> bool {
    exists|o: int, v: int|
        0 <= o < outputs.len() && 0 <= v < outputs[o].visualizers@.len() && names_contain(
            active,
            (#[trigger] outputs[o].visualizers@[v]).name@,
        ) && names_contain(outputs[o].visualizers@[v].inputs@, name)
}

/// An input runs when it is enabled and either always active or needed.
pub open spec fn input_runs(
    outputs: Seq<OutputSpec>,
    active: Seq<&'static str>,
    input: InputSpec,
) -> bool {
    input.enabled && (input.always_active || input_is_needed(outputs, active, input.name@))
}

/// Some input spelled like `name` runs.
pub open spec fn some_input_runs(
    inputs: Seq<InputSpec>,
    outputs: Seq<OutputSpec>,
    active: Seq<&'static str>,
    name: &'static str,
) -> bool {
    exists|i: int|
        0 <= i < inputs.len() && (#[trigger] inputs[i]).name == name && input_runs(
            outputs,
            active,
            inputs[i],
        )
}

/// Names of the inputs that run, in input order.
pub open spec fn active_input_names(
    inputs: Seq<InputSpec>,
    outputs: Seq<OutputSpec>,
    active: Seq<&'static str>,
) -> Seq<&'static str>
    decreases inputs.len(),
{
    if inputs.len() == 0 {
        Seq::empty()
    } else {
        let rest = active_input_names(inputs.drop_last(), outputs, active);
        if input_runs(outputs, active, inputs.last()) {
            rest.push(inputs.last().name)
        } else {
            rest
        }
    }
}

/// The frame `schedule_operator_frame` builds.
pub open spec fn operator_frame_of(inputs: Seq<InputSpec>, outputs: Seq<OutputSpec>) -> (
    Seq<&'static str>,
    Seq<&'static str>,
    Seq<&'static str>,
) {
    let visualizers = active_visualizer_names(inputs, outputs);
    (active_input_names(inputs, outputs, visualizers), visualizers, active_output_names(inputs, outputs))
}

fn contains_name(names: &Vec<&'static str>, name: &str) -> (found: bool)
    ensures
        found == names_contain(names@, name@),
{
    let mut k: usize = 0;
    while k < names.len()
        invariant
            k <= names@.len(),
            forall|m: int| 0 <= m < k ==> (#[trigger] names@[m])@ != name@,
        decreases names@.len() - k,
    {
        if str_eq(names[k], name) {
            return true;
        }
        k += 1;
    }
    false
}

fn input_enabled(inputs: &[InputSpec], name: &str) -> (enabled: bool)
    ensures
        enabled == input_is_enabled(inputs@, name@),
{
    let mut i: usize = 0;
    while i < inputs.len()
        invariant
            i <= inputs@.len(),
            forall|m: int|
                0 <= m < i ==> !((#[trigger] inputs@[m]).name@ == name@ && inputs@[m].enabled),
        decreases inputs@.len() - i,
    {
        if str_eq(inputs[i].name, name) && inputs[i].enabled {
            return true;
        }
        i += 1;
    }
    false
}

fn required_inputs_enabled(inputs: &[InputSpec], required: &[&'static str]) -> (enabled: bool)
    ensures
        enabled == inputs_all_enabled(inputs@, required@),
{
    let mut j: usize = 0;
    while j < required.len()
        invariant
            j <= required@.len(),
            forall|m: int| 0 <= m < j ==> input_is_enabled(inputs@, (#[trigger] required@[m])@),
        decreases required@.len() - j,
    {
        if !input_enabled(inputs, required[j]) {
            return false;
        }
        j += 1;
    }
    true
}

fn output_candidates(inputs: &[InputSpec], visualizers: &Vec<FullVisualizerSpec>) -> (c: Vec<
    VisualizerSpec,
>)
    ensures
        c@ == candidates(inputs@, visualizers@),
{
    let mut c: Vec<VisualizerSpec> = Vec::new();
    let mut j: usize = 0;
    while j < visualizers.len()
        invariant
            j <= visualizers@.len(),
            c@.len() == j,
            forall|m: int| 0 <= m < j ==> #[trigger] c@[m] == candidate(inputs@, visualizers@[m]),
        decreases visualizers@.len() - j,
    {
        let v = &visualizers[j];
        let inputs_enabled = required_inputs_enabled(inputs, v.inputs);
        c.push(VisualizerSpec { name: v.name, priority: v.priority, inputs_enabled });
        j += 1;
    }
    assert(c@ =~= candidates(inputs@, visualizers@));
    c
}

#[verifier::loop_isolation(false)]
fn input_needed(outputs: &[OutputSpec], active: &Vec<&'static str>, name: &str) -> (needed: bool)
    ensures
        needed == input_is_needed(outputs@, active@, name@),
{
    let mut o: usize = 0;
    while o < outputs.len()
        invariant
            o <= outputs@.len(),
            forall|p: int, v: int|
                0 <= p < o && 0 <= v < outputs@[p].visualizers@.len() ==> !(names_contain(
                    active@,
                    (#[trigger] outputs@[p].visualizers@[v]).name@,
                ) && names_contain(outputs@[p].visualizers@[v].inputs@, name@)),
        decreases outputs@.len() - o,
    {
        let visualizers = &outputs[o].visualizers;
        let mut v: usize = 0;
        while v < visualizers.len()
            invariant
                o < outputs@.len(),
                visualizers == outputs@[o as int].visualizers,
                v <= visualizers@.len(),
                forall|p: int, w: int|
                    0 <= p < o && 0 <= w < outputs@[p].visualizers@.len() ==> !(names_contain(
                        active@,
                        (#[trigger] outputs@[p].visualizers@[w]).name@,
                    ) && names_contain(outputs@[p].visualizers@[w].inputs@, name@)),
                forall|w: int|
                    0 <= w < v ==> !(names_contain(active@, (#[trigger] visualizers@[w]).name@)
                        && names_contain(visualizers@[w].inputs@, name@)),
            decreases visualizers@.len() - v,
        {
            let visualizer = &visualizers[v];
            if contains_name(active, visualizer.name) {
                let mut m: usize = 0;
                while m < visualizer.inputs.len()
                    invariant
                        m <= visualizer.inputs@.len(),
                        forall|q: int| 0 <= q < m ==> (#[trigger] visualizer.inputs@[q])@ != name@,
                    decreases visualizer.inputs@.len() - m,
                {
                    if str_eq(visualizer.inputs[m], name) {
                        assert(names_contain(visualizer.inputs@, name@));
                        assert(outputs@[o as int].visualizers@[v as int] == *visualizer);
                        return true;
                    }
                    m += 1;
                }
            }
            v += 1;
        }
        o += 1;
    }
    false
}

/// Build a full operator-frame schedule from outputs, visualizers, and inputs.
///
/// An output is active when it is enabled and its priority schedule selects
/// some visualizer; the active visualizers are those schedules concatenated
/// in output order with repeated names dropped; an input is active when it is
/// enabled and either always active or required by a visualizer whose name is
/// active.
pub fn schedule_operator_frame(inputs: &[InputSpec], outputs: &[OutputSpec]) -> (frame:
    OperatorFrame)
    ensures
        (frame.active_inputs@, frame.active_visualizers@, frame.active_outputs@)
            == operator_frame_of(inputs@, outputs@),
{
    let mut active_outputs: Vec<&'static str> = Vec::new();
    let mut active_visualizers: Vec<&'static str> = Vec::new();
    let mut i: usize = 0;
    while i < outputs.len()
        invariant
            i <= outputs@.len(),
            active_outputs@ == active_output_names(inputs@, outputs@.take(i as int)),
            active_visualizers@ == active_visualizer_names(inputs@, outputs@.take(i as int)),
        decreases outputs@.len() - i,
    {
        let output = &outputs[i];
        let ghost prefix = outputs@.take(i as int);
        let ghost next = outputs@.take(i + 1);
        proof {
            assert(next.drop_last() =~= prefix);
            assert(next.last() == outputs@[i as int]);
        }
        if output.enabled {
            let c = output_candidates(inputs, &output.visualizers);
            let scheduled = schedule_visualizers(c.as_slice());
            if scheduled.active.len() > 0 {
                active_outputs.push(output.name);
                let ghost before = active_visualizers@;
                let mut j: usize = 0;
                while j < scheduled.active.len()
                    invariant
                        j <= scheduled.active@.len(),
                        active_visualizers@ == merge_new_names(
                            before,
                            scheduled.active@.take(j as int),
                        ),
                    decreases scheduled.active@.len() - j,
                {
                    let name = scheduled.active[j];
                    proof {
                        assert(scheduled.active@.take(j + 1).drop_last()
                            =~= scheduled.active@.take(j as int));
                    }
                    if !contains_name(&active_visualizers, name) {
                        active_visualizers.push(name);
                    }
                    j += 1;
                }
                assert(scheduled.active@.take(scheduled.active@.len() as int)
                    =~= scheduled.active@);
            }
        }
        i += 1;
    }
    assert(outputs@.take(outputs@.len() as int) =~= outputs@);
    let mut active_inputs: Vec<&'static str> = Vec::new();
    let mut k: usize = 0;
    while k < inputs.len()
        invariant
            k <= inputs@.len(),
            active_visualizers@ == active_visualizer_names(inputs@, outputs@),
            active_inputs@ == active_input_names(
                inputs@.take(k as int),
                outputs@,
                active_visualizers@,
            ),
        decreases inputs@.len() - k,
    {
        let input = &inputs[k];
        proof {
            assert(inputs@.take(k + 1).drop_last() =~= inputs@.take(k as int));
        }
        if input.enabled && input.always_active {
            active_inputs.push(input.name);
        } else if input.enabled && input_needed(outputs, &active_visualizers, input.name) {
            active_inputs.push(input.name);
        }
        k += 1;
    }
    assert(inputs@.take(inputs@.len() as int) =~= inputs@);
    proof {
    }
    OperatorFrame { active_inputs, active_visualizers, active_outputs }
}

} // verus!

verus! {

/// The names scheduled at priority `p` are exactly the names of the enabled
/// visualizers with that priority, in order.
proof fn lemma_names_with_priority_members(specs: Seq<VisualizerSpec>, p: int)
    ensures
        forall|k: int|
            0 <= k < names_with_priority(specs, p).len() ==> exists|i: int|
                0 <= i < specs.len() && #[trigger] names_with_priority(specs, p)[k]
                    == specs[i].name && specs[i].inputs_enabled && specs[i].priority == p,
        forall|i: int|
            0 <= i < specs.len() && (#[trigger] specs[i]).inputs_enabled && specs[i].priority
                == p ==> names_with_priority(specs, p).contains(specs[i].name),
    decreases specs.len(),
{
    if specs.len() > 0 {
        let rest = specs.drop_last();
        lemma_names_with_priority_members(rest, p);
        let names = names_with_priority(specs, p);
        let rest_names = names_with_priority(rest, p);
        assert forall|k: int| 0 <= k < names.len() implies exists|i: int|
            0 <= i < specs.len() && #[trigger] names[k] == specs[i].name
                && specs[i].inputs_enabled && specs[i].priority == p by {
            if k < rest_names.len() {
                let i = choose|i: int|
                    0 <= i < rest.len() && #[trigger] rest_names[k] == rest[i].name
                        && rest[i].inputs_enabled && rest[i].priority == p;
                assert(names[k] == rest_names[k]);
                assert(specs[i] == rest[i]);
            } else {
                assert(names[k] == specs[specs.len() - 1].name);
            }
        }
        assert forall|i: int|
            0 <= i < specs.len() && (#[trigger] specs[i]).inputs_enabled && specs[i].priority
                == p implies names.contains(specs[i].name) by {
            if i < specs.len() - 1 {
                assert(rest[i] == specs[i]);
                let k = choose|k: int| 0 <= k < rest_names.len() && rest_names[k] == rest[i].name;
                assert(names[k] == rest_names[k]);
            } else {
                assert(names[names.len() - 1] == specs[i].name);
            }
        }
    }
}

/// Priority selection: a visualizer is selected exactly when its inputs are
/// enabled and its priority is the winning one or `-1`. So priority `0` is
/// never selected, a higher priority (a diagnostic) hides every lower one,
/// equal top priorities run together, always-run visualizers come along, and
/// a visualizer with a disabled input never runs.
pub proof fn lemma_schedule_selection(specs: Seq<VisualizerSpec>)
    ensures
        forall|k: int|
            0 <= k < scheduled_names(specs).len() ==> exists|i: int|
                0 <= i < specs.len() && #[trigger] scheduled_names(specs)[k] == specs[i].name
                    && specs[i].inputs_enabled && specs[i].priority != 0 && (specs[i].priority
                    == top_priority_of(specs) || specs[i].priority == -1),
        forall|i: int|
            0 <= i < specs.len() && (#[trigger] specs[i]).inputs_enabled && (specs[i].priority
                == top_priority_of(specs) || specs[i].priority == -1) ==> scheduled_names(
                specs,
            ).contains(specs[i].name),
        forall|i: int|
            0 <= i < specs.len() && (#[trigger] specs[i]).inputs_enabled && specs[i].priority
                >= 0 ==> specs[i].priority <= top_priority_of(specs),
{
    lemma_top_priority_is_max(specs);
    let top = top_priority_of(specs);
    lemma_names_with_priority_members(specs, top);
    lemma_names_with_priority_members(specs, -1);
    let winners = names_with_priority(specs, top);
    let always = names_with_priority(specs, -1);
    let all = scheduled_names(specs);
    assert forall|k: int| 0 <= k < all.len() implies exists|i: int|
        0 <= i < specs.len() && #[trigger] all[k] == specs[i].name && specs[i].inputs_enabled
            && specs[i].priority != 0 && (specs[i].priority == top || specs[i].priority
            == -1) by {
        if k < winners.len() {
            assert(all[k] == winners[k]);
        } else {
            assert(all[k] == always[k - winners.len()]);
        }
    }
    assert forall|i: int|
        0 <= i < specs.len() && (#[trigger] specs[i]).inputs_enabled && (specs[i].priority == top
            || specs[i].priority == -1) implies all.contains(specs[i].name) by {
        if specs[i].priority == top {
            let k = choose|k: int| 0 <= k < winners.len() && winners[k] == specs[i].name;
            assert(all[k] == winners[k]);
        } else {
            let k = choose|k: int| 0 <= k < always.len() && always[k] == specs[i].name;
            assert(all[winners.len() + k] == always[k]);
        }
    }
}

/// Merging keeps what was merged before, only adds names from `names`, adds
/// every spelling of `names`, and never repeats a spelling.
proof fn lemma_merge_new_names(acc: Seq<&'static str>, names: Seq<&'static str>)
    ensures
        merge_new_names(acc, names).len() >= acc.len(),
        merge_new_names(acc, names).take(acc.len() as int) == acc,
        forall|k: int|
            acc.len() <= k < merge_new_names(acc, names).len() ==> names.contains(
                #[trigger] merge_new_names(acc, names)[k],
            ),
        forall|j: int|
            0 <= j < names.len() ==> names_contain(
                merge_new_names(acc, names),
                (#[trigger] names[j])@,
            ),
        (forall|a: int, b: int| 0 <= a < b < acc.len() ==> (#[trigger] acc[a])@ != (#[trigger] acc[b])@)
            ==> forall|a: int, b: int|
            0 <= a < b < merge_new_names(acc, names).len() ==> (#[trigger] merge_new_names(
                acc,
                names,
            )[a])@ != (#[trigger] merge_new_names(acc, names)[b])@,
    decreases names.len(),
{
    if names.len() > 0 {
        let init = names.drop_last();
        lemma_merge_new_names(acc, init);
        let merged = merge_new_names(acc, init);
        let result = merge_new_names(acc, names);
        let last = names.last();
        assert(result.take(acc.len() as int) =~= merged.take(acc.len() as int));
        assert forall|k: int| acc.len() <= k < result.len() implies names.contains(
            #[trigger] result[k],
        ) by {
            if k < merged.len() {
                assert(result[k] == merged[k]);
                let j = choose|j: int| 0 <= j < init.len() && init[j] == merged[k];
                assert(names[j] == init[j]);
            } else {
                assert(result[k] == names[names.len() - 1]);
            }
        }
        assert forall|j: int| 0 <= j < names.len() implies names_contain(
            result,
            (#[trigger] names[j])@,
        ) by {
            if j < init.len() {
                assert(init[j] == names[j]);
                let k = choose|k: int| 0 <= k < merged.len() && (#[trigger] merged[k])@ == init[j]@;
                assert(result[k] == merged[k]);
            } else if !names_contain(merged, last@) {
                assert(result[result.len() - 1] == last);
            }
        }
        if forall|a: int, b: int| 0 <= a < b < acc.len() ==> (#[trigger] acc[a])@ != (#[trigger] acc[b])@ {
            assert forall|a: int, b: int| 0 <= a < b < result.len() implies (#[trigger] result[a])@
                != (#[trigger] result[b])@ by {
                if b < merged.len() {
                    assert(result[a] == merged[a]);
                    assert(result[b] == merged[b]);
                } else {
                    assert(result[a] == merged[a]);
                    assert(result[b] == last);
                }
            }
        }
    }
}

} // verus!

verus! {

#[verifier::spinoff_prover]
proof fn lemma_active_outputs_listed(inputs: Seq<InputSpec>, outputs: Seq<OutputSpec>)
    ensures
        forall|k: int|
            0 <= k < active_output_names(inputs, outputs).len() ==> exists|o: int|
                0 <= o < outputs.len() && #[trigger] active_output_names(inputs, outputs)[k]
                    == outputs[o].name && outputs[o].enabled && output_schedule(
                    inputs,
                    outputs[o],
                ).len() > 0,
    decreases outputs.len(),
{
    if outputs.len() > 0 {
        let rest = outputs.drop_last();
        lemma_active_outputs_listed(inputs, rest);
        assert forall|k: int|
            0 <= k < active_output_names(inputs, outputs).len() implies exists|o: int|
                0 <= o < outputs.len() && #[trigger] active_output_names(inputs, outputs)[k]
                    == outputs[o].name && outputs[o].enabled && output_schedule(
                    inputs,
                    outputs[o],
                ).len() > 0 by {
            if k < active_output_names(inputs, rest).len() {
                assert(active_output_names(inputs, outputs)[k] == active_output_names(
                    inputs,
                    rest,
                )[k]);
                let o = choose|o: int|
                    0 <= o < rest.len() && #[trigger] active_output_names(inputs, rest)[k]
                        == rest[o].name && rest[o].enabled && output_schedule(
                        inputs,
                        rest[o],
                    ).len() > 0;
                assert(outputs[o] == rest[o]);
            } else {
                assert(outputs.last() == outputs[outputs.len() - 1]);
                assert(output_schedule(inputs, outputs[outputs.len() - 1]).len() > 0);
                assert(active_output_names(inputs, outputs)[k] == outputs[outputs.len()
                    - 1].name);
            }
        }
    }
}

#[verifier::spinoff_prover]
proof fn lemma_active_outputs_complete(inputs: Seq<InputSpec>, outputs: Seq<OutputSpec>)
    ensures
        forall|o: int|
            0 <= o < outputs.len() && output_schedule(inputs, #[trigger] outputs[o]).len() > 0
                ==> active_output_names(inputs, outputs).contains(outputs[o].name),
    decreases outputs.len(),
{
    if outputs.len() > 0 {
        let rest = outputs.drop_last();
        lemma_active_outputs_complete(inputs, rest);
        assert forall|o: int|
            0 <= o < outputs.len() && output_schedule(inputs, #[trigger] outputs[o]).len()
                > 0 implies active_output_names(inputs, outputs).contains(outputs[o].name) by {
            if o < rest.len() {
                assert(rest[o] == outputs[o]);
                let k = choose|k: int|
                    0 <= k < active_output_names(inputs, rest).len() && active_output_names(
                        inputs,
                        rest,
                    )[k] == rest[o].name;
                assert(active_output_names(inputs, outputs)[k] == active_output_names(
                    inputs,
                    rest,
                )[k]);
            } else {
                assert(outputs.last() == outputs[o]);
                assert(active_output_names(inputs, outputs)[active_output_names(
                    inputs,
                    outputs,
                ).len() - 1] == outputs[o].name);
            }
        }
    }
}

#[verifier::spinoff_prover]
proof fn lemma_active_visualizers(inputs: Seq<InputSpec>, outputs: Seq<OutputSpec>)
    ensures
        forall|a: int, b: int|
            0 <= a < b < active_visualizer_names(inputs, outputs).len() ==> (
            #[trigger] active_visualizer_names(inputs, outputs)[a])@ != (
            #[trigger] active_visualizer_names(inputs, outputs)[b])@,
        forall|o: int, j: int|
            0 <= o < outputs.len() && 0 <= j < output_schedule(inputs, outputs[o]).len()
                ==> names_contain(
                active_visualizer_names(inputs, outputs),
                (#[trigger] output_schedule(inputs, #[trigger] outputs[o])[j])@,
            ),
        forall|k: int|
            0 <= k < active_visualizer_names(inputs, outputs).len() ==> exists|o: int|
                0 <= o < outputs.len() && output_schedule(inputs, #[trigger] outputs[o]).contains(
                    #[trigger] active_visualizer_names(inputs, outputs)[k],
                ),
    decreases outputs.len(),
{
    if outputs.len() > 0 {
        let rest = outputs.drop_last();
        lemma_active_visualizers(inputs, rest);
        let before = active_visualizer_names(inputs, rest);
        let last = output_schedule(inputs, outputs.last());
        let after = active_visualizer_names(inputs, outputs);
        lemma_merge_new_names(before, last);
        assert forall|o: int, j: int|
            0 <= o < outputs.len() && 0 <= j < output_schedule(inputs, outputs[o]).len()
                implies names_contain(
                after,
                (#[trigger] output_schedule(inputs, #[trigger] outputs[o])[j])@,
            ) by {
            if o < rest.len() {
                assert(rest[o] == outputs[o]);
                let k = choose|k: int|
                    0 <= k < before.len() && (#[trigger] before[k])@ == output_schedule(
                        inputs,
                        rest[o],
                    )[j]@;
                assert(after.take(before.len() as int)[k] == after[k]);
            } else {
                assert(last[j] == output_schedule(inputs, outputs[o])[j]);
            }
        }
        assert forall|k: int| 0 <= k < after.len() implies exists|o: int|
            0 <= o < outputs.len() && output_schedule(inputs, #[trigger] outputs[o]).contains(
                #[trigger] after[k],
            ) by {
            if k < before.len() {
                assert(after.take(before.len() as int)[k] == after[k]);
                let o = choose|o: int|
                    0 <= o < rest.len() && output_schedule(inputs, #[trigger] rest[o]).contains(
                        before[k],
                    );
                assert(rest[o] == outputs[o]);
            } else {
                assert(outputs[outputs.len() - 1] == outputs.last());
            }
        }
    }
}

#[verifier::spinoff_prover]
proof fn lemma_active_inputs_listed(
    inputs: Seq<InputSpec>,
    outputs: Seq<OutputSpec>,
    active: Seq<&'static str>,
)
    ensures
        forall|k: int|
            0 <= k < active_input_names(inputs, outputs, active).len() ==> some_input_runs(
                inputs,
                outputs,
                active,
                #[trigger] active_input_names(inputs, outputs, active)[k],
            ),
    decreases inputs.len(),
{
    if inputs.len() > 0 {
        let rest = inputs.drop_last();
        lemma_active_inputs_listed(rest, outputs, active);
        assert forall|k: int|
            0 <= k < active_input_names(inputs, outputs, active).len() implies some_input_runs(
            inputs,
            outputs,
            active,
            #[trigger] active_input_names(inputs, outputs, active)[k],
        ) by {
            let name = active_input_names(inputs, outputs, active)[k];
            if k < active_input_names(rest, outputs, active).len() {
                assert(name == active_input_names(rest, outputs, active)[k]);
                assert(some_input_runs(rest, outputs, active, name));
                let i = choose|i: int|
                    0 <= i < rest.len() && (#[trigger] rest[i]).name == name && input_runs(
                        outputs,
                        active,
                        rest[i],
                    );
                assert(inputs[i] == rest[i]);
            } else {
                assert(inputs.last() == inputs[inputs.len() - 1]);
                assert(input_runs(outputs, active, inputs[inputs.len() - 1]));
                assert(name == inputs[inputs.len() - 1].name);
            }
        }
    }
}

#[verifier::spinoff_prover]
proof fn lemma_active_inputs_complete(
    inputs: Seq<InputSpec>,
    outputs: Seq<OutputSpec>,
    active: Seq<&'static str>,
)
    ensures
        forall|i: int|
            0 <= i < inputs.len() && input_runs(outputs, active, #[trigger] inputs[i])
                ==> active_input_names(inputs, outputs, active).contains(inputs[i].name),
    decreases inputs.len(),
{
    if inputs.len() > 0 {
        let rest = inputs.drop_last();
        lemma_active_inputs_complete(rest, outputs, active);
        assert forall|i: int|
            0 <= i < inputs.len() && input_runs(outputs, active, #[trigger] inputs[i]) implies active_input_names(
            inputs,
            outputs,
            active,
        ).contains(inputs[i].name) by {
            if i < rest.len() {
                assert(rest[i] == inputs[i]);
                let k = choose|k: int|
                    0 <= k < active_input_names(rest, outputs, active).len() && active_input_names(
                        rest,
                        outputs,
                        active,
                    )[k] == rest[i].name;
                assert(active_input_names(inputs, outputs, active)[k] == active_input_names(
                    rest,
                    outputs,
                    active,
                )[k]);
            } else {
                assert(inputs.last() == inputs[i]);
                assert(active_input_names(inputs, outputs, active)[active_input_names(
                    inputs,
                    outputs,
                    active,
                ).len() - 1] == inputs[i].name);
            }
        }
    }
}

/// What every operator frame satisfies:
/// an output is listed exactly when it is enabled and schedules some
/// visualizer; no visualizer name is listed twice; every visualizer an output
/// schedules is listed, and only those; an input is listed exactly when it is
/// enabled and either always active or required by a listed visualizer.
#[verifier::spinoff_prover]
pub proof fn lemma_operator_frame_laws(inputs: Seq<InputSpec>, outputs: Seq<OutputSpec>)
    ensures
        ({
            let (active_inputs, active_visualizers, active_outputs) = operator_frame_of(
                inputs,
                outputs,
            );
            &&& forall|k: int|
                0 <= k < active_outputs.len() ==> exists|o: int|
                    0 <= o < outputs.len() && #[trigger] active_outputs[k] == outputs[o].name
                        && outputs[o].enabled && output_schedule(inputs, outputs[o]).len() > 0
            &&& forall|o: int|
                0 <= o < outputs.len() && (#[trigger] outputs[o]).enabled && output_schedule(
                    inputs,
                    outputs[o],
                ).len() > 0 ==> active_outputs.contains(outputs[o].name)
            &&& forall|a: int, b: int|
                0 <= a < b < active_visualizers.len() ==> (#[trigger] active_visualizers[a])@
                    != (#[trigger] active_visualizers[b])@
            &&& forall|o: int, j: int|
                0 <= o < outputs.len() && 0 <= j < output_schedule(inputs, outputs[o]).len()
                    ==> names_contain(
                    active_visualizers,
                    (#[trigger] output_schedule(inputs, #[trigger] outputs[o])[j])@,
                )
            &&& forall|k: int|
                0 <= k < active_visualizers.len() ==> exists|o: int|
                    0 <= o < outputs.len() && output_schedule(
                        inputs,
                        #[trigger] outputs[o],
                    ).contains(#[trigger] active_visualizers[k])
            &&& forall|k: int|
                0 <= k < active_inputs.len() ==> some_input_runs(
                    inputs,
                    outputs,
                    active_visualizers,
                    #[trigger] active_inputs[k],
                )
            &&& forall|i: int|
                0 <= i < inputs.len() && input_runs(outputs, active_visualizers, #[trigger] inputs[i])
                    ==> active_inputs.contains(inputs[i].name)
        }),
{
    lemma_active_outputs_listed(inputs, outputs);
    lemma_active_outputs_complete(inputs, outputs);
    lemma_active_visualizers(inputs, outputs);
    lemma_active_inputs_listed(inputs, outputs, active_visualizer_names(inputs, outputs));
    lemma_active_inputs_complete(inputs, outputs, active_visualizer_names(inputs, outputs));
}

} // verus!

verus! {

/// Some enabled input is called `name`.
pub open spec fn enabled_input_called(inputs: Seq<InputSpec>, name: Seq<char>) -> bool {
    exists|i: int| 0 <= i < inputs.len() && (#[trigger] inputs[i]).name@ == name && inputs[i].enabled
}

/// A visualizer on an output's schedule is one the output registers whose
/// required inputs are, every one of them, enabled inputs.
#[verifier::spinoff_prover]
proof fn lemma_scheduled_has_enabled_inputs(inputs: Seq<InputSpec>, output: OutputSpec, m: int)
    requires
        0 <= m < output_schedule(inputs, output).len(),
    ensures
        output.enabled,
        exists|v: int|
            0 <= v < output.visualizers@.len() && (#[trigger] output.visualizers@[v]).name
                == output_schedule(inputs, output)[m] && forall|j: int|
                0 <= j < output.visualizers@[v].inputs@.len() ==> enabled_input_called(inputs, (#[trigger] output.visualizers@[v].inputs@[j])@),
{
    let cands = candidates(inputs, output.visualizers@);
    lemma_schedule_selection(cands);
    assert(output_schedule(inputs, output)[m] == scheduled_names(cands)[m]);
    let v = choose|i: int|
        0 <= i < cands.len() && #[trigger] scheduled_names(cands)[m] == cands[i].name
            && cands[i].inputs_enabled && cands[i].priority != 0 && (cands[i].priority
            == top_priority_of(cands) || cands[i].priority == -1);
    let vis = output.visualizers@[v];
    assert(cands[v] == candidate(inputs, vis));
    assert forall|j: int| 0 <= j < vis.inputs@.len() implies enabled_input_called(inputs, (#[trigger] vis.inputs@[j])@) by {
        assert(input_is_enabled(inputs, vis.inputs@[j]@));
    }
}

/// An enabled output registers a visualizer called `name` whose required
/// inputs are, every one of them, enabled inputs.
pub open spec fn registered_with_enabled_inputs(
    inputs: Seq<InputSpec>,
    outputs: Seq<OutputSpec>,
    name: &'static str,
) -> bool {
    exists|o: int, v: int|
        0 <= o < outputs.len() && 0 <= v < outputs[o].visualizers@.len() && outputs[o].enabled
            && (#[trigger] outputs[o].visualizers@[v]).name == name && forall|j: int|
            0 <= j < outputs[o].visualizers@[v].inputs@.len() ==> enabled_input_called(inputs, (#[trigger] outputs[o].visualizers@[v].inputs@[j])@)
}

/// Every listed visualizer is registered on an enabled output with all of its
/// required inputs enabled.
#[verifier::spinoff_prover]
proof fn lemma_frame_visualizer_inputs(inputs: Seq<InputSpec>, outputs: Seq<OutputSpec>)
    ensures
        forall|k: int|
            0 <= k < operator_frame_of(inputs, outputs).1.len() ==> registered_with_enabled_inputs(
                inputs,
                outputs,
                #[trigger] operator_frame_of(inputs, outputs).1[k],
            ),
{
    lemma_operator_frame_laws(inputs, outputs);
    let av = operator_frame_of(inputs, outputs).1;
    assert forall|k: int| 0 <= k < av.len() implies registered_with_enabled_inputs(
        inputs,
        outputs,
        #[trigger] av[k],
    ) by {
        let o = choose|o: int|
            0 <= o < outputs.len() && output_schedule(inputs, #[trigger] outputs[o]).contains(
                av[k],
            );
        let sched = output_schedule(inputs, outputs[o]);
        let m = choose|m: int| 0 <= m < sched.len() && sched[m] == av[k];
        lemma_scheduled_has_enabled_inputs(inputs, outputs[o], m);
        let v = choose|v: int|
            0 <= v < outputs[o].visualizers@.len() && (#[trigger] outputs[o].visualizers@[v]).name
                == sched[m] && forall|j: int|
                0 <= j < outputs[o].visualizers@[v].inputs@.len() ==> enabled_input_called(inputs, (#[trigger] outputs[o].visualizers@[v].inputs@[j])@);
        assert(outputs[o].visualizers@[v].name == av[k]);
    }
}

/// Every enabled input that a listed visualizer requires, wherever the input
/// stands among its required inputs, is listed.
#[verifier::spinoff_prover]
proof fn lemma_frame_required_inputs_listed(inputs: Seq<InputSpec>, outputs: Seq<OutputSpec>)
    ensures
        forall|i: int, o: int, v: int|
            0 <= i < inputs.len() && 0 <= o < outputs.len() && 0 <= v
                < outputs[o].visualizers@.len() && (#[trigger] inputs[i]).enabled && names_contain(
                operator_frame_of(inputs, outputs).1,
                (#[trigger] outputs[o].visualizers@[v]).name@,
            ) && names_contain(outputs[o].visualizers@[v].inputs@, inputs[i].name@)
                ==> operator_frame_of(inputs, outputs).0.contains(inputs[i].name),
{
    lemma_operator_frame_laws(inputs, outputs);
    let av = operator_frame_of(inputs, outputs).1;
    assert forall|i: int, o: int, v: int|
        0 <= i < inputs.len() && 0 <= o < outputs.len() && 0 <= v < outputs[o].visualizers@.len()
            && (#[trigger] inputs[i]).enabled && names_contain(
            av,
            (#[trigger] outputs[o].visualizers@[v]).name@,
        ) && names_contain(
            outputs[o].visualizers@[v].inputs@,
            inputs[i].name@,
        ) implies operator_frame_of(inputs, outputs).0.contains(inputs[i].name) by {
        assert(input_is_needed(outputs, av, inputs[i].name@));
        assert(input_runs(outputs, av, inputs[i]));
    }
}

/// An always-run visualizer of an enabled output, whose required inputs are
/// all enabled inputs, is listed.
#[verifier::spinoff_prover]
proof fn lemma_frame_enabled_always_run_listed(inputs: Seq<InputSpec>, outputs: Seq<OutputSpec>)
    ensures
        forall|o: int, v: int|
            0 <= o < outputs.len() && 0 <= v < outputs[o].visualizers@.len() && outputs[o].enabled
                && (#[trigger] outputs[o].visualizers@[v]).priority == -1 && (forall|j: int|
                0 <= j < outputs[o].visualizers@[v].inputs@.len() ==> enabled_input_called(
                    inputs,
                    (#[trigger] outputs[o].visualizers@[v].inputs@[j])@,
                )) ==> names_contain(
                operator_frame_of(inputs, outputs).1,
                outputs[o].visualizers@[v].name@,
            ),
{
    lemma_operator_frame_laws(inputs, outputs);
    assert forall|o: int, v: int|
        0 <= o < outputs.len() && 0 <= v < outputs[o].visualizers@.len() && outputs[o].enabled
            && (#[trigger] outputs[o].visualizers@[v]).priority == -1 && (forall|j: int|
            0 <= j < outputs[o].visualizers@[v].inputs@.len() ==> enabled_input_called(
                inputs,
                (#[trigger] outputs[o].visualizers@[v].inputs@[j])@,
            )) implies names_contain(
        operator_frame_of(inputs, outputs).1,
        outputs[o].visualizers@[v].name@,
    ) by {
        let vis = outputs[o].visualizers@[v];
        let cands = candidates(inputs, outputs[o].visualizers@);
        assert(cands[v] == candidate(inputs, vis));
        assert forall|j: int| 0 <= j < vis.inputs@.len() implies input_is_enabled(
            inputs,
            (#[trigger] vis.inputs@[j])@,
        ) by {
            assert(enabled_input_called(inputs, vis.inputs@[j]@));
        }
        assert(cands[v].inputs_enabled);
        lemma_schedule_selection(cands);
        let sched = output_schedule(inputs, outputs[o]);
        assert(sched == scheduled_names(cands));
        assert(sched.contains(vis.name));
        let m = choose|m: int| 0 <= m < sched.len() && sched[m] == vis.name;
        assert(names_contain(operator_frame_of(inputs, outputs).1, sched[m]@));
    }
}

/// How inputs gate a frame. Every listed visualizer is registered on an
/// enabled output, and each input it requires is an enabled input: a
/// visualizer with a missing or disabled required input never runs through
/// that output. Conversely an always-run visualizer of an enabled output
/// whose required inputs are all enabled is listed. And every enabled input
/// that a listed visualizer requires, at any position among its required
/// inputs, is itself listed.
pub proof fn lemma_frame_input_gating(inputs: Seq<InputSpec>, outputs: Seq<OutputSpec>)
    ensures
        forall|k: int|
            0 <= k < operator_frame_of(inputs, outputs).1.len() ==> registered_with_enabled_inputs(
                inputs,
                outputs,
                #[trigger] operator_frame_of(inputs, outputs).1[k],
            ),
        forall|o: int, v: int|
            0 <= o < outputs.len() && 0 <= v < outputs[o].visualizers@.len() && outputs[o].enabled
                && (#[trigger] outputs[o].visualizers@[v]).priority == -1 && (forall|j: int|
                0 <= j < outputs[o].visualizers@[v].inputs@.len() ==> enabled_input_called(
                    inputs,
                    (#[trigger] outputs[o].visualizers@[v].inputs@[j])@,
                )) ==> names_contain(
                operator_frame_of(inputs, outputs).1,
                outputs[o].visualizers@[v].name@,
            ),
        forall|i: int, o: int, v: int|
            0 <= i < inputs.len() && 0 <= o < outputs.len() && 0 <= v
                < outputs[o].visualizers@.len() && (#[trigger] inputs[i]).enabled && names_contain(
                operator_frame_of(inputs, outputs).1,
                (#[trigger] outputs[o].visualizers@[v]).name@,
            ) && names_contain(outputs[o].visualizers@[v].inputs@, inputs[i].name@)
                ==> operator_frame_of(inputs, outputs).0.contains(inputs[i].name),
{
    lemma_frame_visualizer_inputs(inputs, outputs);
    lemma_frame_enabled_always_run_listed(inputs, outputs);
    lemma_frame_required_inputs_listed(inputs, outputs);
}

} // verus!
