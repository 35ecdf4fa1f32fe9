use ivm::host::dynamic::DynamicProgramMailbox;
use ivm::host::module::{GraftHandle, ProgramHandle};
use ivm::host::names::NameId;
use ivm::host::{Host, IVM};
use ivm::runtime::ext::{ExtFn, ExtFnKind, ExtVal, Payload};
use ivm::runtime::graft::{Graft, GraftId, Instruction, Nilary};
use ivm::runtime::heap::Heap;
use ivm::runtime::port::{NodeKind, Port, Tag};
use ivm::runtime::stats::Stats;
use ivm::runtime::{Hooks, Runtime, YieldReason};

fn runtime() -> Runtime {
    let host = Host::new(IVM::new());
    host.init(Heap::new())
}

fn word(bits: u64, copy: bool) -> Port {
    Port::new_ext_val(ExtVal { ty_id: 0, payload: Payload::Opaque { bits, copy } })
}

fn bits(port: &Port) -> u64 {
    match port {
        Port::ExtVal(value) => match value.payload {
            Payload::Opaque { bits, .. } => bits,
            _ => panic!("another value"),
        },
        _ => panic!("not a value: {:?}", port),
    }
}

#[test]
fn normalization_can_stop_and_resume() {
    let mut runtime = runtime();

    // Queue two independent annihilations.
    for _ in 0..2 {
        let a = runtime.new_node(Tag::Comb, 0);

        let b = runtime.new_node(Tag::Comb, 0);

        runtime.link(a.0, b.0);
    }

    assert!(!runtime.is_quiescent());
    assert_eq!(runtime.stats.annihilate, 0);

    let reason = runtime.normalize_for(1, ());

    assert_eq!(reason, YieldReason::BudgetExhausted);
    assert_eq!(runtime.stats.annihilate, 1);
    assert!(!runtime.is_quiescent());

    let reason = runtime.normalize_for(1, ());

    assert_eq!(reason, YieldReason::Quiescent);
    assert_eq!(runtime.stats.annihilate, 2);
    assert!(runtime.is_quiescent());
}

#[test]
fn zero_budget_does_not_reduce_pending_work() {
    let mut runtime = runtime();

    let a = runtime.new_node(Tag::Comb, 0);

    let b = runtime.new_node(Tag::Comb, 0);

    runtime.link(a.0, b.0);

    let reason = runtime.normalize_for(0, ());

    assert_eq!(reason, YieldReason::BudgetExhausted);
    assert_eq!(runtime.stats.annihilate, 0);
    assert!(!runtime.is_quiescent());

    runtime.normalize(());

    assert_eq!(runtime.stats.annihilate, 1);
    assert!(runtime.is_quiescent());
}

#[test]
fn zero_budget_on_a_quiescent_runtime_is_quiescent() {
    let mut runtime = runtime();
    assert_eq!(runtime.normalize_for(0, ()), YieldReason::Quiescent);
    assert!(!runtime.reduce_one());
}

#[test]
fn annihilation_links_auxiliary_ports_pairwise() {
    let mut runtime = runtime();
    let a = runtime.new_node(Tag::Comb, 7);
    let b = runtime.new_node(Tag::Comb, 7);
    runtime.link(a.0, b.0);
    runtime.link_wire(a.1, word(1, true));
    runtime.link_wire(a.2, word(2, true));
    runtime.normalize(());
    let left = runtime.follow(Port::new_wire(b.1));
    let right = runtime.follow(Port::new_wire(b.2));
    assert_eq!(bits(&left), 1);
    assert_eq!(bits(&right), 2);
    assert_eq!(runtime.stats.annihilate, 1);
    assert_eq!(runtime.stats.mem_alloc, 4);
    assert_eq!(runtime.stats.mem_free, 4);
}

#[test]
fn commutation_duplicates_both_nodes() {
    let mut runtime = runtime();
    let a = runtime.new_node(Tag::Comb, 1);
    let b = runtime.new_node(Tag::Comb, 2);
    runtime.link(a.0, b.0);
    assert_eq!(runtime.active_slow.len(), 1);
    assert!(runtime.reduce_one());
    assert_eq!(runtime.stats.commute, 1);
    assert_eq!(runtime.stats.mem_alloc, 12);
    let copy = runtime.follow(Port::new_wire(a.1));
    assert_eq!(copy.tag(), Tag::Comb);
    match copy {
        Port::Node(node) => assert_eq!(node.label, 2),
        _ => panic!("not a node"),
    }
    let copy = runtime.follow(Port::new_wire(b.2));
    match copy {
        Port::Node(node) => assert_eq!(node.label, 1),
        _ => panic!("not a node"),
    }
}

#[test]
fn copyable_values_are_copied() {
    let mut runtime = runtime();
    let node = runtime.new_node(Tag::Comb, 0);
    runtime.link(word(9, true), node.0);
    assert_eq!(runtime.active_fast.len(), 1);
    runtime.normalize(());
    let left = runtime.follow(Port::new_wire(node.1));
    let right = runtime.follow(Port::new_wire(node.2));
    assert_eq!((bits(&left), bits(&right)), (9, 9));
    assert_eq!(runtime.stats.copy, 1);
    assert!(!runtime.flags.ext_copy);
}

#[test]
fn linear_values_are_not_copied() {
    let mut runtime = runtime();
    let node = runtime.new_node(Tag::Comb, 0);
    runtime.link(node.0, word(9, false));
    runtime.normalize(());
    let left = runtime.follow(Port::new_wire(node.1));
    let right = runtime.follow(Port::new_wire(node.2));
    assert_eq!(bits(&left), 9);
    assert_eq!(right.tag(), Tag::Erase);
    assert!(runtime.flags.ext_copy);
}

#[test]
fn erasing_a_linear_value_is_flagged() {
    let mut runtime = runtime();
    runtime.link(word(1, true), Port::Erase);
    runtime.normalize(());
    assert!(!runtime.flags.ext_erase);
    runtime.link(Port::Erase, word(1, false));
    runtime.normalize(());
    assert!(runtime.flags.ext_erase);
    assert_eq!(runtime.stats.erase, 2);
}

#[test]
fn erasers_spread() {
    let mut runtime = runtime();
    let node = runtime.new_node(Tag::Comb, 3);
    runtime.link(Port::Erase, node.0);
    runtime.normalize(());
    assert_eq!(runtime.follow(Port::new_wire(node.1)).tag(), Tag::Erase);
    assert_eq!(runtime.follow(Port::new_wire(node.2)).tag(), Tag::Erase);
}

#[test]
fn fast_pairs_are_reduced_before_slow_ones() {
    let mut runtime = runtime();
    let a = runtime.new_node(Tag::Comb, 0);
    let b = runtime.new_node(Tag::Comb, 0);
    let c = runtime.new_node(Tag::Comb, 1);
    let d = runtime.new_node(Tag::Comb, 2);
    runtime.link(a.0, b.0);
    runtime.link(c.0, d.0);
    assert!(runtime.reduce_one());
    assert_eq!((runtime.stats.annihilate, runtime.stats.commute), (1, 0));
    assert_eq!(runtime.stats.mem_alloc, 8);
    assert!(runtime.reduce_one());
    assert_eq!((runtime.stats.annihilate, runtime.stats.commute), (1, 1));
    assert!(!runtime.reduce_one());
}

#[test]
fn do_fast_counts_interactions_and_leaves_slow_pairs() {
    let mut runtime = runtime();
    for _ in 0..3 {
        let a = runtime.new_node(Tag::Comb, 0);
        let b = runtime.new_node(Tag::Comb, 0);
        runtime.link(a.0, b.0);
    }
    let c = runtime.new_node(Tag::Comb, 1);
    let d = runtime.new_node(Tag::Comb, 2);
    runtime.link(c.0, d.0);
    assert_eq!(runtime.do_fast(), 3);
    assert_eq!(runtime.stats.annihilate, 3);
    assert_eq!(runtime.stats.commute, 0);
    assert_eq!(runtime.active_slow.len(), 1);
    assert_eq!(runtime.do_fast(), 0);
}

/// Two annihilations, the second of which arises from the first.
fn chain(runtime: &mut Runtime) {
    let a = runtime.new_node(Tag::Comb, 0);
    let b = runtime.new_node(Tag::Comb, 0);
    let c = runtime.new_node(Tag::Comb, 5);
    let d = runtime.new_node(Tag::Comb, 5);
    runtime.link_wire(a.1, c.0);
    runtime.link_wire(b.1, d.0);
    runtime.link(a.0, b.0);
}

#[test]
fn breadth_first_normalization_measures_depth() {
    let mut runtime = runtime();
    chain(&mut runtime);
    let a = runtime.new_node(Tag::Comb, 0);
    let b = runtime.new_node(Tag::Comb, 0);
    runtime.link(a.0, b.0);
    runtime.normalize_breadth_first(());
    assert!(runtime.is_quiescent());
    assert_eq!(runtime.stats.annihilate, 3);
    assert_eq!(runtime.stats.depth, 2);
}

#[test]
fn two_budgets_do_what_their_sum_does() {
    let mut split = runtime();
    let mut whole = runtime();
    for runtime in [&mut split, &mut whole] {
        for _ in 0..3 {
            chain(runtime);
        }
    }
    assert_eq!(split.normalize_for(2, ()), YieldReason::BudgetExhausted);
    assert_eq!(split.normalize_for(3, ()), YieldReason::BudgetExhausted);
    assert_eq!(whole.normalize_for(5, ()), YieldReason::BudgetExhausted);
    assert_eq!(split.stats.annihilate, 5);
    assert_eq!(whole.stats.annihilate, 5);
    assert_eq!(split.heap.free, whole.heap.free);
    assert_eq!(format!("{:?}", split.heap), format!("{:?}", whole.heap));
    assert_eq!(format!("{:?}", split.active_fast), format!("{:?}", whole.active_fast));
}

struct Counting {
    now: u32,
    tick: u32,
    end: u32,
}

impl Hooks for Counting {
    type Instant = u32;

    fn now(&mut self) -> u32 {
        self.now += 1;
        42
    }

    fn tick(&mut self, start: &u32, stats: &mut Stats) {
        assert_eq!(*start, 42);
        self.tick += 1;
        stats.annihilate = 100;
    }

    fn end(&mut self, start: &u32, stats: &mut Stats) {
        assert_eq!(*start, 42);
        self.end += 1;
        stats.copy = 7;
    }
}

#[test]
fn hooks_are_called_around_every_reduction() {
    let mut runtime = runtime();
    chain(&mut runtime);
    let mut hooks = Counting { now: 0, tick: 0, end: 0 };
    runtime.normalize(&mut hooks);
    assert_eq!((hooks.now, hooks.tick, hooks.end), (1, 2, 1));
    assert_eq!(runtime.stats.annihilate, 101);
    assert_eq!(runtime.stats.copy, 7);
    assert!(runtime.is_quiescent());
}

#[test]
fn breadth_first_hooks_tick_once_more() {
    let mut runtime = runtime();
    chain(&mut runtime);
    let mut hooks = Counting { now: 0, tick: 0, end: 0 };
    runtime.normalize_breadth_first(&mut hooks);
    assert_eq!((hooks.now, hooks.tick, hooks.end), (1, 3, 1));
}

#[test]
fn the_clock_runs() {
    let mut runtime = runtime();
    for _ in 0..2000 {
        chain(&mut runtime);
    }
    runtime.normalize(());
    assert!(runtime.stats.time_clock > 0);
    assert_eq!(runtime.stats.annihilate, 4000);
}

#[test]
fn time_is_added_up() {
    let mut stats = Stats { annihilate: 3, ..Stats::default() };
    stats.add_time(5);
    stats.add_time(7);
    assert_eq!(stats, Stats { annihilate: 3, time_clock: 12, ..Stats::default() });
    let mut runtime = runtime();
    let mut earlier = 0;
    for _ in 0..3 {
        for _ in 0..500 {
            chain(&mut runtime);
        }
        runtime.normalize(());
        assert!(runtime.stats.time_clock > earlier);
        earlier = runtime.stats.time_clock;
    }
}

#[test]
fn self_linked_wires_are_never_freed() {
    let mut runtime = runtime();
    let a = runtime.new_node(Tag::Comb, 0);
    let b = runtime.new_node(Tag::Comb, 0);
    runtime.link_wire_wire(a.1, b.1);
    runtime.link_wire_wire(a.2, b.2);
    runtime.link(a.0, b.0);
    runtime.normalize(());
    assert!(runtime.stats.mem_free < runtime.stats.mem_alloc);
}

#[test]
fn freed_wires_are_used_again() {
    let mut runtime = runtime();
    for _ in 0..10 {
        let a = runtime.new_node(Tag::Comb, 0);
        let b = runtime.new_node(Tag::Comb, 0);
        for wire in [a.1, a.2, b.1, b.2] {
            runtime.link_wire(wire, Port::Erase);
        }
        runtime.link(a.0, b.0);
        runtime.normalize(());
    }
    assert_eq!(runtime.heap.cells.len(), 4);
    assert_eq!(runtime.stats.mem_alloc, 40);
    assert_eq!(runtime.stats.mem_free, 40);
}

#[test]
fn no_end_of_a_wire_is_used_twice() {
    let mut runtime = runtime();
    for label in 1..6 {
        let a = runtime.new_node(Tag::Comb, label);
        let b = runtime.new_node(Tag::Comb, 0);
        let c = runtime.new_node(Tag::Comb, 0);
        runtime.link_wire(a.1, Port::Erase);
        runtime.link_wire(a.2, word(1, true));
        runtime.link_wire(b.1, c.0);
        runtime.link_wire_wire(c.1, c.2);
        runtime.link_wire(b.2, word(2, true));
        runtime.link(a.0, b.0);
    }
    while runtime.reduce_one() {
        let mut free = runtime.heap.free.clone();
        assert!(free.iter().all(|cell| runtime.heap.cells[*cell].is_none()));
        free.sort();
        free.dedup();
        assert_eq!(free.len(), runtime.heap.free.len());
        let in_use = runtime.heap.cells.len() - free.len();
        assert_eq!(runtime.stats.mem_alloc, runtime.stats.mem_free + in_use as u64);
    }
    assert_eq!(runtime.stats.commute, 10);
}

/// A host with one graft: a combinator whose auxiliary ports are two values.
fn host_with_pair() -> Host {
    let mut ivm = IVM::new();
    let value = |bits: u64| {
        Nilary::Value(ExtVal { ty_id: 0, payload: Payload::Opaque { bits, copy: true } })
    };
    ivm.grafts.push(Graft {
        registers: 3,
        instructions: vec![
            Instruction::Binary {
                kind: NodeKind::Comb,
                label: 0,
                principal: 0,
                left: 1,
                right: 2,
            },
            Instruction::Nilary { port: 1, value: value(11) },
            Instruction::Nilary { port: 2, value: value(22) },
        ],
    });
    Host::new(ivm)
}

#[test]
fn grafts_are_expanded() {
    let mut runtime = host_with_pair().init(Heap::new());
    let node = runtime.new_node(Tag::Comb, 0);
    runtime.link(Port::new_graft(GraftId { index: 0 }), node.0);
    assert_eq!(runtime.active_slow.len(), 1);
    runtime.normalize(());
    let left = runtime.follow(Port::new_wire(node.1));
    let right = runtime.follow(Port::new_wire(node.2));
    assert_eq!((bits(&left), bits(&right)), (11, 22));
    assert_eq!(runtime.stats.expand, 1);
    assert_eq!(runtime.stats.annihilate, 1);
    assert_eq!(runtime.stats.mem_alloc, runtime.stats.mem_free);
}

#[test]
fn erased_grafts_are_not_expanded() {
    let mut runtime = host_with_pair().init(Heap::new());
    runtime.link(Port::new_graft(GraftId { index: 0 }), Port::Erase);
    assert_eq!(runtime.active_fast.len(), 1);
    runtime.normalize(());
    assert_eq!(runtime.stats.expand, 0);
    assert_eq!(runtime.stats.erase, 1);
    assert!(runtime.flags.success());
}

fn runtime_with_fn(kind: fn(DynamicProgramMailbox) -> ExtFnKind) -> Runtime {
    let mut host = host_with_pair();
    let mailbox = DynamicProgramMailbox::new(&mut host.mailboxes);
    host.ext_fns.push(ExtFn { name: NameId { index: 0 }, kind: kind(mailbox) });
    host.init(Heap::new())
}

#[test]
fn invoked_grafts_stand_between_their_wires() {
    let mut runtime = runtime_with_fn(|_| ExtFnKind::InvokeGraft);
    let node = runtime.new_node(Tag::ExtFn, 0);
    let graft = GraftHandle::new(GraftId { index: 0 });
    let value = ExtVal { ty_id: 4, payload: Payload::Graft(graft) };
    runtime.link(node.0, Port::new_ext_val(value));
    assert_eq!(runtime.active_slow.len(), 1);
    runtime.normalize(());
    let left = runtime.follow(Port::new_wire(node.1));
    let right = runtime.follow(Port::new_wire(node.2));
    assert_eq!((bits(&left), bits(&right)), (11, 22));
    assert_eq!(runtime.stats.call, 1);
}

#[test]
fn functions_refuse_other_values() {
    let kinds: [fn(DynamicProgramMailbox) -> ExtFnKind; 3] =
        [ExtFnKind::ParseIvy, ExtFnKind::ResolveProgram, |_| ExtFnKind::InvokeGraft];
    for kind in kinds {
        let mut runtime = runtime_with_fn(kind);
        let node = runtime.new_node(Tag::ExtFn, 0);
        runtime.link(word(1, true), node.0);
        runtime.normalize(());
        assert!(runtime.flags.ext_generic);
        assert_eq!(runtime.follow(Port::new_wire(node.1)).tag(), Tag::Erase);
        assert_eq!(runtime.follow(Port::new_wire(node.2)).tag(), Tag::Erase);
        assert!(runtime.host.mailboxes.queues[0].is_empty());
    }
}

#[test]
fn host_functions_interrupt_a_normalization() {
    let mut runtime = runtime_with_fn(|_| ExtFnKind::Host);
    chain(&mut runtime);
    let node = runtime.new_node(Tag::ExtFn, 0);
    let other = runtime.new_node(Tag::Comb, 3);
    let another = runtime.new_node(Tag::Comb, 4);
    runtime.link(other.0, another.0);
    runtime.link(word(5, false), node.0);
    let mut hooks = Counting { now: 0, tick: 0, end: 0 };
    let open = runtime.normalize_until_call(None, &mut hooks);
    assert_eq!(open, Some(42));
    assert_eq!((hooks.now, hooks.tick, hooks.end), (1, 3, 0));
    assert!(!runtime.is_quiescent());
    let call = runtime.calls.pop().unwrap();
    assert_eq!(call.label, 0);
    assert_eq!(bits(&Port::new_ext_val(call.input)), 5);
    runtime.link_wire(call.left, word(6, false));
    assert_eq!(runtime.normalize_until_call(open, &mut hooks), None);
    assert_eq!((hooks.now, hooks.tick, hooks.end), (1, 4, 1));
    assert!(runtime.is_quiescent());
    assert_eq!(bits(&runtime.follow(Port::new_wire(node.1))), 6);
    assert!(runtime.flags.success());
}

#[test]
fn host_functions_interrupt_a_budget() {
    let mut runtime = runtime_with_fn(|_| ExtFnKind::Host);
    let node = runtime.new_node(Tag::ExtFn, 0);
    runtime.link(word(5, true), node.0);
    for _ in 0..2 {
        let a = runtime.new_node(Tag::Comb, 0);
        let b = runtime.new_node(Tag::Comb, 0);
        runtime.link(a.0, b.0);
    }
    let mut hooks = Counting { now: 0, tick: 0, end: 0 };
    let result = runtime.normalize_for_until_call(3, None, &mut hooks);
    assert_eq!(result, Err((42, 0)));
    let call = runtime.calls.pop().unwrap();
    let copier = runtime.new_node(Tag::Comb, 0);
    runtime.link_wire(call.left, copier.0);
    runtime.link_wire(node.1, word(7, true));
    let result = runtime.normalize_for_until_call(0, Some(42), &mut hooks);
    assert_eq!(result, Ok(YieldReason::BudgetExhausted));
    assert_eq!((hooks.now, hooks.tick, hooks.end), (1, 3, 1));
    assert_eq!(runtime.normalize_for(9, ()), YieldReason::Quiescent);
}

#[test]
fn program_handles_come_back_from_payloads() {
    let module = ProgramHandle { index: 3 };
    let payload = ProgramHandle::into_payload_static(module);
    assert_eq!(payload, 3);
    assert_eq!(ProgramHandle::from_payload_static(payload), module);
}
