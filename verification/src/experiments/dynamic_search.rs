//! Synthetic branching-search workload.
//!
//! Each node does a configurable amount of arithmetic, belongs to one of a few
//! classes, and spawns a configurable number of children.

use crate::compiler::run_classes::DEFAULT_MAX_STEPS;
use crate::compiler::state_machine_lowering::SearchFrame;
use crate::executives::cpu_scalar;
use crate::executives::cpu_scalar::Child;
use crate::experiments::ant_observe;
use crate::experiments::ant_observe::run_epochs;
use crate::executives::placement;
use crate::kernel;
use crate::kernel::{
    Call, ContinuationSpec, Kernel, ProcessMode, Ref64, RuntimeError, SpecView, StateAccess,
};
use vstd::prelude::*;

verus! {

/// How many epochs a search is given.
pub const EPOCH_LIMIT: u32 = 100_000;

/// What shapes a search.
#[derive(Clone, Copy, Debug, PartialEq, Eq, Structural)]
pub struct ControlKnobs {
    /// Children of each node that has any.
    pub branching_factor: u32,
    /// Levels below a root.
    pub depth: u32,
    /// Roots.
    pub process_count: u32,
    /// Classes that nodes are spread over.
    pub class_count: u32,
    /// Rounds of arithmetic in each node.
    pub arithmetic_ops: u32,
    pub memory_intensity: u32,
    pub use_heuristic: bool,
    pub arrival_rate: u32,
}

impl Default for ControlKnobs {
    fn default() -> (knobs: Self)
        ensures
            knobs == (ControlKnobs {
                branching_factor: 3,
                depth: 4,
                process_count: 2,
                class_count: 1,
                arithmetic_ops: 16,
                memory_intensity: 0,
                use_heuristic: false,
                arrival_rate: 1,
            }),
    {
        ControlKnobs {
            branching_factor: 3,
            depth: 4,
            process_count: 2,
            class_count: 1,
            arithmetic_ops: 16,
            memory_intensity: 0,
            use_heuristic: false,
            arrival_rate: 1,
        }
    }
}

/// `b` to the power of `level`: the nodes of a tree at that level.
pub open spec fn level_size(b: nat, level: nat) -> nat
    decreases level,
{
    if level == 0 {
        1
    } else {
        level_size(b, (level - 1) as nat) * b
    }
}

/// The nodes of a tree above `level`.
pub open spec fn nodes_above(b: nat, level: nat) -> nat
    decreases level,
{
    if level == 0 {
        0
    } else {
        nodes_above(b, (level - 1) as nat) + level_size(b, (level - 1) as nat)
    }
}

pub open spec fn tree_size(knobs: ControlKnobs) -> nat {
    nodes_above(knobs.branching_factor as nat, (knobs.depth + 1) as nat)
}

pub open spec fn search_size(knobs: ControlKnobs) -> nat {
    knobs.process_count as nat * tree_size(knobs)
}

pub proof fn lemma_nodes_grow(b: nat, low: nat, high: nat)
    requires
        low <= high,
    ensures
        nodes_above(b, low) <= nodes_above(b, high),
    decreases high - low,
{
    if low < high {
        lemma_nodes_grow(b, low, (high - 1) as nat);
    }
}

impl ControlKnobs {
    /// How many nodes the search visits.
    pub fn node_count(&self) -> (count: u64)
        requires
            tree_size(*self) <= u64::MAX,
            search_size(*self) <= u64::MAX,
        ensures
            count == search_size(*self),
    {
        let b: u64 = self.branching_factor as u64;
        let mut total: u64 = 0;
        let mut level: u64 = 1;
        let mut n: u64 = 0;
        while n <= self.depth as u64
            invariant
                n <= self.depth + 1,
                b == self.branching_factor,
                tree_size(*self) <= u64::MAX,
                total == nodes_above(b as nat, n as nat),
                level == level_size(b as nat, n as nat) || level == u64::MAX && level_size(
                    b as nat,
                    n as nat,
                ) >= u64::MAX,
            decreases self.depth + 1 - n,
        {
            proof {
                lemma_nodes_grow(b as nat, (n + 1) as nat, (self.depth + 1) as nat);
            }
            total = total + level;
            proof {
                let size = level_size(b as nat, n as nat) as int;
                assert(level_size(b as nat, (n + 1) as nat) == size * b);
                if level != size && b > 0 {
                    assert(size * b >= size) by (nonlinear_arith)
                        requires
                            b >= 1,
                            size >= 0,
                    ;
                    assert(level * b >= level) by (nonlinear_arith)
                        requires
                            b >= 1,
                    ;
                }
                if b == 0 {
                    assert(size * b == 0) by (nonlinear_arith)
                        requires
                            b == 0,
                    ;
                    assert(level * b == 0) by (nonlinear_arith)
                        requires
                            b == 0,
                    ;
                }
            }
            level = match level.checked_mul(b) {
                Some(next) => next,
                None => u64::MAX,
            };
            n = n + 1;
        }
        proof {
            let t = total as int;
            let p = self.process_count as int;
            assert(p * t == search_size(*self));
        }
        self.process_count as u64 * total
    }
}

pub open spec fn root_of(knobs: ControlKnobs, root: int) -> SearchFrame {
    SearchFrame {
        value: (root + 1) as u64,
        depth: knobs.depth,
        branching: knobs.branching_factor,
        work_iters: knobs.arithmetic_ops,
        class_count: knobs.class_count,
    }
}

/// The two calls that start a root, or the first alone where it is refused.
pub open spec fn root_calls(knobs: ControlKnobs, root: int, c: Child) -> Seq<Call> {
    let made = seq![
        Call::CreateProcess {
            actor: kernel::system_principal(),
            mode: ProcessMode::Serial,
            reply: c.process,
        },
    ];
    match c.process {
        Ok(process) => made.push(
            Call::CreateContinuation {
                actor: kernel::system_principal(),
                process,
                spec: SpecView {
                    access: StateAccess::ReadOnly,
                    run_class: root_of(knobs, root).class(),
                    priority: 0,
                    frame: root_of(knobs, root).encoded(),
                    max_steps: DEFAULT_MAX_STEPS,
                },
                reply: c.continuation,
            },
        ),
        Err(_) => made,
    }
}

pub open spec fn roots_calls(knobs: ControlKnobs, roots: Seq<Child>, n: int) -> Seq<Call>
    decreases n,
{
    if n <= 0 {
        Seq::empty()
    } else {
        roots_calls(knobs, roots, n - 1) + root_calls(knobs, n - 1, roots[n - 1])
    }
}

/// What a child that did not come up was refused with.
pub open spec fn refusal(c: Child) -> RuntimeError {
    match c.process {
        Err(error) => error,
        Ok(_) => c.continuation->Err_0,
    }
}

/// The roots were started in order, up to the first that was refused.
pub open spec fn is_built(
    knobs: ControlKnobs,
    roots: Seq<Child>,
    before: Seq<Call>,
    after: Seq<Call>,
    result: Result<(), RuntimeError>,
) -> bool {
    let count = knobs.process_count as nat;
    let up = cpu_scalar::up_before(roots, count, 0);
    &&& after == before + roots_calls(knobs, roots, cpu_scalar::tries(roots, count))
    &&& result == if up < count {
        Err::<(), _>(refusal(roots[up]))
    } else {
        Ok(())
    }
}

proof fn lemma_roots_extend(knobs: ControlKnobs, a: Seq<Child>, b: Seq<Child>, n: int)
    requires
        forall|i: int| 0 <= i < n ==> a[i] == b[i],
    ensures
        roots_calls(knobs, a, n) == roots_calls(knobs, b, n),
    decreases n,
{
    if n > 0 {
        lemma_roots_extend(knobs, a, b, n - 1);
    }
}

fn start_root<K: Kernel>(kernel: &mut K, knobs: &ControlKnobs, root: u32) -> (out: (
    Result<(), RuntimeError>,
    Ghost<Child>,
))
    ensures
        final(kernel).log() == old(kernel).log() + root_calls(*knobs, root as int, out.1@),
        out.0 is Ok <==> cpu_scalar::child_is_up(out.1@),
        out.0 is Err ==> out.0->Err_0 == refusal(out.1@),
{
    let ghost l0 = kernel.log();
    let made = kernel.create_process(kernel::system(), ProcessMode::Serial);
    let process: Ref64 = match made {
        Ok(process) => process,
        Err(error) => {
            let ghost c = Child { process: made, recording: false, continuation: made };
            assert(kernel.log() =~= l0 + root_calls(*knobs, root as int, c));
            return (Err(error), Ghost(c));
        },
    };
    let node = SearchFrame {
        value: root as u64 + 1,
        depth: knobs.depth,
        branching: knobs.branching_factor,
        work_iters: knobs.arithmetic_ops,
        class_count: knobs.class_count,
    };
    let mut content: Vec<u8> = Vec::new();
    node.encode(&mut content);
    assert(content@ =~= node.encoded());
    let spec = ContinuationSpec::new(
        StateAccess::ReadOnly,
        node.run_class(),
        0,
        content,
        DEFAULT_MAX_STEPS,
    );
    let reply = kernel.create_continuation(kernel::system(), process, spec);
    let ghost c = Child { process: made, recording: false, continuation: reply };
    assert(kernel.log() =~= l0 + root_calls(*knobs, root as int, c));
    match reply {
        Ok(_) => (Ok(()), Ghost(c)),
        Err(error) => (Err(error), Ghost(c)),
    }
}

/// Starts the roots in an already configured kernel, so that what the kernel
/// does with them can be varied without another setup.
pub fn build_in<K: Kernel>(kernel: &mut K, knobs: &ControlKnobs) -> (result: Result<
    (),
    RuntimeError,
>)
    ensures
        exists|roots: Seq<Child>| #[trigger]
            is_built(*knobs, roots, old(kernel).log(), final(kernel).log(), result),
{
    let ghost l0 = kernel.log();
    let ghost mut roots: Seq<Child> = Seq::empty();
    assert(l0 + roots_calls(*knobs, roots, 0) =~= l0);
    let mut root: u32 = 0;
    while root < knobs.process_count
        invariant
            root <= knobs.process_count,
            l0 == old(kernel).log(),
            roots.len() == root,
            forall|i: int| 0 <= i < roots.len() ==> cpu_scalar::child_is_up(#[trigger] roots[i]),
            kernel.log() == l0 + roots_calls(*knobs, roots, root as int),
        decreases knobs.process_count - root,
    {
        let (started, Ghost(c)) = start_root(kernel, knobs, root);
        proof {
            let more = roots.push(c);
            lemma_roots_extend(*knobs, roots, more, root as int);
            assert(kernel.log() =~= l0 + roots_calls(*knobs, more, root + 1));
            cpu_scalar::lemma_up(more, knobs.process_count as nat, root as int, 0);
            roots = more;
        }
        if let Err(error) = started {
            let result: Result<(), RuntimeError> = Err(error);
            assert(is_built(*knobs, roots, l0, kernel.log(), result));
            return result;
        }
        root = root + 1;
    }
    let unit: () = ();
    let result: Result<(), RuntimeError> = Ok(unit);
    proof {
        let count = knobs.process_count as nat;
        cpu_scalar::lemma_up(roots, count, count as int, 0);
        assert(unit == ());
        assert(is_built(*knobs, roots, l0, kernel.log(), result));
    }
    result
}

/// The roots were started and the kernel ran from there.
pub open spec fn built_and_ran(
    knobs: ControlKnobs,
    roots: Seq<Child>,
    before: Seq<Call>,
    between: Seq<Call>,
    after: Seq<Call>,
    epochs: u32,
) -> bool {
    &&& is_built(knobs, roots, before, between, Ok(()))
    &&& placement::grew(between, after)
    &&& ant_observe::runs(placement::gained(between, after), EPOCH_LIMIT, epochs)
}

/// Builds the search and runs it until the kernel goes quiet. The epochs that
/// took, or why a root was refused.
pub fn run<K: Kernel>(kernel: &mut K, knobs: &ControlKnobs) -> (result: Result<u32, RuntimeError>)
    ensures
        result is Ok ==> exists|roots: Seq<Child>, between: Seq<Call>| #[trigger]
            built_and_ran(
                *knobs,
                roots,
                old(kernel).log(),
                between,
                final(kernel).log(),
                result->Ok_0,
            ),
        result is Err ==> exists|roots: Seq<Child>| #[trigger]
            is_built(*knobs, roots, old(kernel).log(), final(kernel).log(), Err(result->Err_0)),
{
    let ghost l0 = kernel.log();
    let built = build_in(kernel, knobs);
    let ghost l1 = kernel.log();
    let ghost roots = choose|roots: Seq<Child>| #[trigger]
        is_built(*knobs, roots, l0, l1, built);
    match built {
        Ok(_) => {},
        Err(error) => {
            let result: Result<u32, RuntimeError> = Err(error);
            assert(is_built(
                *knobs,
                roots,
                old(kernel).log(),
                final(kernel).log(),
                Err(result->Err_0),
            ));
            return result;
        },
    }
    let epochs: u32 = run_epochs(kernel, EPOCH_LIMIT);
    proof {
        let l2 = kernel.log();
        assert(built->Ok_0 == ());
        assert(built == Ok::<(), RuntimeError>(()));
        assert(built_and_ran(*knobs, roots, l0, l1, l2, epochs));
    }
    let result: Result<u32, RuntimeError> = Ok(epochs);
    assert(built_and_ran(
        *knobs,
        roots,
        old(kernel).log(),
        l1,
        final(kernel).log(),
        result->Ok_0,
    ));
    result
}

} // verus!
