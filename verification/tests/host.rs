use ivm::host::dynamic::{
    DynamicProgramMailbox, DynamicProgramRequest, DynamicProgramService, Mailboxes,
};
use ivm::host::loader::{DynamicProgramLoader, ParsedSource};
use ivm::host::module::{CompileError, GraftHandle, IvyModule, ProgramHandle, RunError};
use ivm::host::names::Table;
use ivm::host::runner::{CaptureOutput, Epoch, RunOutcome, RunProgress, Runner, Suspended};
use ivm::host::{Extrinsic, Host, IVM};
use ivm::program::{FlatNet, FlatNode, Program};
use ivm::runtime::ext::{ExtFnKind, ExtVal, Payload, TyName};
use ivm::runtime::flags::Flags;
use ivm::runtime::graft::GraftId;
use ivm::runtime::heap::Heap;
use ivm::runtime::port::{Port, Tag};
use ivm::runtime::stats::Stats;
use ivm::runtime::wire::Wire;
use ivm::runtime::{Hooks, Runtime};

fn text(s: &str) -> String {
    s.to_string()
}

/// A net that hands its input on to its output.
fn identity() -> FlatNet {
    FlatNet {
        wires: 2,
        nodes: vec![FlatNode::Comb { label: 0, principal: 0, left: 1, right: 1 }],
    }
}

fn multi_entry() -> Vec<(String, FlatNet)> {
    vec![(text("iv:first"), identity()), (text("iv:second"), identity())]
}

const MULTI_ENTRY: &str = r#"
    iv:first {
      ^ = ivm:x(value value)
    }

    iv:second {
      ^ = ivm:x(value value)
    }
    "#;

#[test]
fn compiles_all_entry_points() {
    let mut host = Host::new(IVM::new());
    let table = Table::default();
    let mut loader = DynamicProgramLoader::new(&table);
    let parsed = vec![ParsedSource { source: text(MULTI_ENTRY), nets: Ok(multi_entry()) }];

    let module = loader.parse_ivy(&mut host, &text(MULTI_ENTRY), &parsed).unwrap();

    assert!(loader.graft(&host, module, &text("iv:first")).is_some());
    assert!(loader.graft(&host, module, &text("iv:second")).is_some());
    assert!(loader.graft(&host, module, &text("iv:missing")).is_none());
}

#[test]
fn later_programs_do_not_change_earlier_ones() {
    let mut host = Host::new(IVM::new());
    let mut loader = DynamicProgramLoader::new(&Table::default());
    let parsed = vec![
        ParsedSource { source: text("a"), nets: Ok(multi_entry()) },
        ParsedSource { source: text("b"), nets: Ok(vec![(text("iv:second"), identity())]) },
    ];
    let a = loader.parse_ivy(&mut host, &text("a"), &parsed).unwrap();
    let second = loader.graft(&host, a, &text("iv:second"));
    assert_eq!(second, Some(GraftId { index: 1 }));
    let b = loader.parse_ivy(&mut host, &text("b"), &parsed).unwrap();
    assert_eq!((a.index, b.index), (0, 1));
    assert_eq!(loader.graft(&host, a, &text("iv:second")), second);
    assert_eq!(loader.graft(&host, b, &text("iv:second")), Some(GraftId { index: 2 }));
    assert_eq!(loader.graft(&host, b, &text("iv:first")), None);
}

#[test]
fn texts_that_are_not_ivy_compile_to_nothing() {
    let mut host = Host::new(IVM::new());
    let mut loader = DynamicProgramLoader::new(&Table::default());
    let parsed = vec![
        ParsedSource {
            source: text("{"),
            nets: Err(CompileError::Parse { message: text("unexpected end") }),
        },
        ParsedSource {
            source: text("x"),
            nets: Err(CompileError::Flatten { message: text("no such port") }),
        },
    ];
    let error = loader.parse_ivy(&mut host, &text("x"), &parsed).unwrap_err();
    assert!(matches!(error, CompileError::Flatten { .. }));
    assert_eq!(error.message(), "no such port");
    let error = loader.parse_ivy(&mut host, &text("{"), &parsed).unwrap_err();
    assert!(matches!(error, CompileError::Parse { .. }));
    assert_eq!(error.message(), "unexpected end");
    assert!(host.ivm.programs.is_empty());
    assert!(host.ivm.grafts.is_empty());
    assert!(loader.table.paths.is_empty());
}

#[test]
fn modules_find_their_grafts() {
    let mut host = Host::new(IVM::new());
    let mut table = Table::default();
    let program = Program::new(&mut host, &mut table, &multi_entry());
    let module = IvyModule::new(&program);
    let second = table.add_path_name(&text("iv:second"));
    let missing = table.add_path_name(&text("iv:missing"));
    assert_eq!(module.graft(second), Some(GraftId { index: 1 }));
    assert_eq!(module.graft(missing), None);
    assert_eq!(GraftHandle::new(GraftId { index: 1 }).graft(), GraftId { index: 1 });
}

#[test]
fn names_are_interned_once() {
    let mut table = Table::default();
    let a = table.add_path_name(&text("a"));
    let b = table.add_path_name(&text("b"));
    assert_ne!(a, b);
    assert_eq!(table.add_path_name(&text("a")), a);
    assert_eq!(table.find(&text("b")), Some(b));
    assert_eq!(table.find(&text("c")), None);
    assert_eq!(table.duplicate().paths, vec![text("a"), text("b")]);
}

#[test]
fn types_are_registered_once() {
    let mut host = Host::new(IVM::new());
    let io = host.register_ext_ty(TyName::Io);
    let graft = host.register_ext_ty(TyName::Graft);
    assert_ne!(io.id(), graft.id());
    assert_eq!(host.register_ext_ty(TyName::Io), io);
    assert_eq!(host.ext_tys, vec![TyName::Io, TyName::Graft]);
}

#[test]
fn nets_with_unknown_names_cannot_be_encoded() {
    let mut host = Host::new(IVM::new());
    let mut table = Table::default();
    let calling = |path: &str| {
        vec![(
            text("iv:main"),
            FlatNet {
                wires: 3,
                nodes: vec![FlatNode::ExtFn { path: text(path), principal: 0, left: 1, right: 2 }],
            },
        )]
    };
    assert!(!Program::is_encodable(&calling("test:print"), &table, &host));
    let extrinsic = Extrinsic { path: text("test:print"), kind: ExtFnKind::Host };
    host.register(&mut table, vec![extrinsic]);
    assert!(Program::is_encodable(&calling("test:print"), &table, &host));
    assert!(!Program::is_encodable(&calling("test:read"), &table, &host));
    let global = |path: &str| {
        vec![(
            text("iv:main"),
            FlatNet { wires: 1, nodes: vec![FlatNode::Global { path: text(path), port: 0 }] },
        )]
    };
    assert!(Program::is_encodable(&global("iv:main"), &table, &host));
    assert!(!Program::is_encodable(&global("iv:other"), &table, &host));
    let wide = vec![(
        text("iv:main"),
        FlatNet { wires: 1, nodes: vec![FlatNode::Erase { port: 1 }] },
    )];
    assert!(!Program::is_encodable(&wide, &table, &host));
}

fn parse(source: &str, cell: usize) -> DynamicProgramRequest {
    DynamicProgramRequest::ParseIvy { source: text(source), output: Wire { cell } }
}

#[test]
fn the_mailbox_keeps_the_order() {
    let mut mailboxes = Mailboxes::new();
    let mailbox = DynamicProgramMailbox::new(&mut mailboxes);
    for (cell, source) in ["a", "b", "c"].iter().enumerate() {
        mailbox.push(&mut mailboxes, parse(source, cell));
    }
    assert_eq!(
        shown(mailbox.drain(&mut mailboxes)),
        vec![(text("a"), 0), (text("b"), 1), (text("c"), 2)]
    );
    assert!(mailbox.drain(&mut mailboxes).is_empty());
}

#[test]
fn clones_of_a_mailbox_share_one_queue() {
    let mut mailboxes = Mailboxes::new();
    let mailbox = DynamicProgramMailbox::new(&mut mailboxes);
    let other = DynamicProgramMailbox::new(&mut mailboxes);
    let clone = mailbox.clone();
    mailbox.push(&mut mailboxes, parse("a", 0));
    clone.push(&mut mailboxes, parse("b", 1));
    other.push(&mut mailboxes, parse("c", 2));
    mailbox.push(&mut mailboxes, parse("d", 3));
    let requests = shown(clone.drain(&mut mailboxes));
    assert_eq!(requests, vec![(text("a"), 0), (text("b"), 1), (text("d"), 3)]);
    assert!(mailbox.drain(&mut mailboxes).is_empty());
    assert_eq!(shown(other.drain(&mut mailboxes)), vec![(text("c"), 2)]);
}

#[test]
fn the_service_registers_its_functions() {
    let mut host = Host::new(IVM::new());
    let mut table = Table::default();
    let service = DynamicProgramService::new(&mut host, &mut table);
    assert_eq!(
        table.paths,
        vec![
            text("root:ivy:parse"),
            text("root:ivm:program:resolve"),
            text("root:ivm:graft:invoke"),
        ]
    );
    let kinds: Vec<ExtFnKind> = host.ext_fns.iter().map(|f| f.kind).collect();
    assert_eq!(
        kinds,
        vec![
            ExtFnKind::ParseIvy(service.requests),
            ExtFnKind::ResolveProgram(service.requests),
            ExtFnKind::InvokeGraft,
        ]
    );
    assert_eq!(host.ext_tys[service.compile_ty.id()], TyName::CompileResult);
    assert_eq!(host.ext_tys[service.resolve_ty.id()], TyName::ResolveResult);
    let request = DynamicProgramRequest::Resolve {
        module: ProgramHandle { index: 0 },
        entry: text("e"),
        output: Wire { cell: 0 },
    };
    service.push(&mut host.mailboxes, request);
    assert_eq!(service.drain(&mut host.mailboxes).len(), 1);
    assert!(service.drain(&mut host.mailboxes).is_empty());
}

/// Lets the net of `runtime` call the extrinsic function `label`, and returns the wire for
/// the answer.
fn call(runtime: &mut Runtime, label: usize, payload: Payload) -> Wire {
    let node = runtime.new_node(Tag::ExtFn, label);
    runtime.link(node.0, Port::new_ext_val(ExtVal { ty_id: 0, payload }));
    runtime.link_wire(node.2, Port::Erase);
    runtime.normalize(());
    node.1
}

fn program_and_entry(index: usize, entry: &str) -> Payload {
    let module = Payload::Program(ProgramHandle { index });
    Payload::Pair(
        Box::new(ExtVal { ty_id: 0, payload: module }),
        Box::new(ExtVal { ty_id: 0, payload: Payload::Text(text(entry)) }),
    )
}

fn shown(requests: Vec<DynamicProgramRequest>) -> Vec<(String, usize)> {
    requests
        .into_iter()
        .map(|request| match request {
            DynamicProgramRequest::ParseIvy { source, output } => (source, output.cell),
            DynamicProgramRequest::Resolve { entry, output, .. } => (entry, output.cell),
        })
        .collect()
}

#[test]
fn the_functions_of_a_mailbox_feed_it() {
    let mut host = Host::new(IVM::new());
    host.ivm.programs.push(Program { entries: vec![] });
    let mailbox = DynamicProgramMailbox::new(&mut host.mailboxes);
    let other = DynamicProgramMailbox::new(&mut host.mailboxes);
    let mut table = Table::default();
    host.register(&mut table, mailbox.extrinsics());
    host.register(&mut table, other.extrinsics());
    let mut runtime = host.init(Heap::new());
    let first = call(&mut runtime, 0, Payload::Text(text("source")));
    assert_eq!(runtime.host.mailboxes.queues[mailbox.index].len(), 1);
    let third = call(&mut runtime, 3, Payload::Text(text("another")));
    let second = call(&mut runtime, 1, program_and_entry(0, "iv:missing"));
    assert!(runtime.flags.success());
    assert_eq!(
        shown(other.drain(&mut runtime.host.mailboxes)),
        vec![(text("another"), third.cell)]
    );
    assert_eq!(
        shown(mailbox.drain(&mut runtime.host.mailboxes)),
        vec![(text("source"), first.cell), (text("iv:missing"), second.cell)]
    );
    assert_eq!(runtime.follow(Port::new_wire(first)).tag(), Tag::Wire);
    assert_eq!(runtime.follow(Port::new_wire(second)).tag(), Tag::Wire);
}

#[test]
fn the_service_takes_the_requests_of_a_net() {
    let mut host = Host::new(IVM::new());
    let service = DynamicProgramService::new(&mut host, &mut Table::default());
    let mut runtime = host.init(Heap::new());
    assert!(service.drain(&mut runtime.host.mailboxes).is_empty());
    let first = call(&mut runtime, 0, Payload::Text(text("one")));
    let pushed = runtime.new_node(Tag::Comb, 0);
    let request = DynamicProgramRequest::ParseIvy { source: text("two"), output: pushed.1 };
    service.push(&mut runtime.host.mailboxes, request);
    let third = call(&mut runtime, 0, Payload::Text(text("three")));
    let requests = shown(service.drain(&mut runtime.host.mailboxes));
    let sources: Vec<&str> = requests.iter().map(|(source, _)| source.as_str()).collect();
    assert_eq!(sources, vec!["one", "two", "three"]);
    assert_eq!((requests[0].1, requests[2].1), (first.cell, third.cell));
    assert!(service.drain(&mut runtime.host.mailboxes).is_empty());
}

#[test]
fn the_service_writes_results() {
    let mut host = Host::new(IVM::new());
    let service = DynamicProgramService::new(&mut host, &mut Table::default());
    let mut runtime = host.init(Heap::new());
    let node = runtime.new_node(Tag::Comb, 0);
    let other = runtime.new_node(Tag::Comb, 0);
    runtime.link(node.0, other.0);
    service.write_compile_result(&mut runtime, node.1, Err(text("bad")));
    service.write_resolve_result(&mut runtime, node.2, Err(text("none")));
    runtime.normalize(());
    match runtime.follow(Port::new_wire(other.1)) {
        Port::ExtVal(ExtVal { ty_id, payload: Payload::CompileResult(Err(error)) }) => {
            assert_eq!(ty_id, service.compile_ty.id());
            assert_eq!(error, "bad");
        }
        port => panic!("{:?}", port),
    }
    match runtime.follow(Port::new_wire(other.2)) {
        Port::ExtVal(ExtVal { ty_id, payload: Payload::ResolveResult(Err(error)) }) => {
            assert_eq!(ty_id, service.resolve_ty.id());
            assert_eq!(error, "none");
        }
        port => panic!("{:?}", port),
    }
}

fn runner(extrinsics: Vec<Extrinsic>, nets: Vec<(String, FlatNet)>) -> Runner {
    let host = Host::new(IVM::new());
    Runner::try_new(Heap::new(), host, extrinsics, &mut Table::default(), &nets).unwrap()
}

/// Runs an epoch, and returns whether the run then waits for the host.
fn epoch(runner: &mut Runner, breadth_first: bool, workers: usize) -> bool {
    let epoch = runner.run_epoch(breadth_first, workers, &mut (), Epoch::Closed);
    let mailbox = runner.ivy_service.requests;
    let asked = !runner.runtime.host.mailboxes.queues[mailbox.index].is_empty();
    asked || !matches!(epoch, Epoch::Closed)
}

#[test]
fn a_program_that_returns_io_succeeds() {
    for (breadth_first, workers) in [(false, 0), (false, 4), (true, 0)] {
        let mut runner = runner(vec![], vec![(text("iv:main"), identity())]);
        assert!(!epoch(&mut runner, breadth_first, workers));
        let outcome = runner.finish();
        assert!(outcome.success());
        assert_eq!(outcome.error_message(true), "");
        assert_eq!(outcome.stats.expand, 1);
        assert_eq!(outcome.stats.annihilate, 1);
        assert_eq!(outcome.stats.mem_alloc, outcome.stats.mem_free);
        assert_eq!(outcome.stats.depth, if breadth_first { 2 } else { 0 });
    }
}

#[test]
fn a_program_that_loses_io_fails() {
    let erasing = FlatNet {
        wires: 3,
        nodes: vec![
            FlatNode::Comb { label: 0, principal: 0, left: 1, right: 2 },
            FlatNode::Erase { port: 1 },
            FlatNode::Erase { port: 2 },
        ],
    };
    let nets = vec![(text("iv:main"), erasing)];
    let host = Host::new(IVM::new());
    let mut runner = Runner::new(Heap::new(), host, vec![], &mut Table::default(), &nets);
    epoch(&mut runner, false, 0);
    let outcome = runner.finish();
    assert!(!outcome.success());
    assert!(outcome.flags.no_io);
    assert!(outcome.flags.ext_erase);
    assert!(!outcome.flags.vicious);
    assert_eq!(
        outcome.error_message(false),
        "Error: a linear extrinsic was erased\nError: the net did not return its `IO` handle"
    );
}

#[test]
fn a_vicious_circle_is_noticed() {
    let circle = FlatNet {
        wires: 3,
        nodes: vec![
            FlatNode::Comb { label: 0, principal: 0, left: 1, right: 1 },
            FlatNode::Comb { label: 3, principal: 2, left: 2, right: 2 },
        ],
    };
    let mut runner = runner(vec![], vec![(text("iv:main"), circle)]);
    epoch(&mut runner, false, 0);
    let outcome = runner.finish();
    assert!(outcome.flags.vicious);
    assert!(!outcome.flags.no_io);
    assert_eq!(outcome.error_message(true), "Error: the net created a vicious circle");
}

#[test]
fn nets_without_main_do_not_run() {
    let host = Host::new(IVM::new());
    let nets = multi_entry();
    let runner = Runner::try_new(Heap::new(), host, vec![], &mut Table::default(), &nets);
    assert!(runner.is_none());
}

/// A main net that hands its `IO` token on, asks for the text `source` to be parsed, and
/// gives the answer to the host.
fn asking(source: &str) -> Vec<(String, FlatNet)> {
    let value = ExtVal { ty_id: 0, payload: Payload::Text(text(source)) };
    let nodes = vec![
        FlatNode::Comb { label: 0, principal: 0, left: 1, right: 1 },
        FlatNode::Value { value, port: 2 },
        FlatNode::ExtFn { path: text("root:ivy:parse"), principal: 2, left: 3, right: 4 },
        FlatNode::Erase { port: 4 },
        FlatNode::ExtFn { path: text("test:observe"), principal: 3, left: 5, right: 6 },
        FlatNode::Erase { port: 5 },
        FlatNode::Erase { port: 6 },
    ];
    vec![(text("iv:main"), FlatNet { wires: 7, nodes })]
}

fn observe() -> Vec<Extrinsic> {
    vec![Extrinsic { path: text("test:observe"), kind: ExtFnKind::Host }]
}

#[test]
fn a_program_can_load_and_run_another() {
    let mut runner = runner(observe(), asking("source"));
    assert!(epoch(&mut runner, false, 0));
    assert_eq!(runner.awaited_sources(), vec![text("source")]);
    let parsed = vec![ParsedSource { source: text("source"), nets: Ok(multi_entry()) }];
    assert!(runner.service_ivy_requests(&parsed));
    assert!(epoch(&mut runner, false, 0));
    let mut calls = runner.take_calls();
    assert_eq!(calls.len(), 1);
    let call = calls.pop().unwrap();
    let module = match call.input.payload {
        Payload::CompileResult(Ok(module)) => module,
        payload => panic!("{:?}", payload),
    };
    assert_eq!(module.index, 0);
    runner.runtime.link_wire(call.left, Port::Erase);
    runner.runtime.link_wire(call.right, Port::Erase);

    for (entry, found) in [("iv:second", true), ("iv:missing", false)] {
        let resolve = runner.runtime.new_node(Tag::ExtFn, 1);
        let pair = Payload::Pair(
            Box::new(ExtVal { ty_id: 0, payload: Payload::Program(module) }),
            Box::new(ExtVal { ty_id: 0, payload: Payload::Text(text(entry)) }),
        );
        let pair = ExtVal { ty_id: 0, payload: pair };
        runner.runtime.link(resolve.0, Port::new_ext_val(pair));
        runner.runtime.link_wire(resolve.2, Port::Erase);
        assert!(epoch(&mut runner, false, 0));
        assert!(runner.awaited_sources().is_empty());
        assert!(runner.service_ivy_requests(&vec![]));
        match runner.runtime.follow(Port::new_wire(resolve.1)) {
            Port::ExtVal(ExtVal { payload: Payload::ResolveResult(result), .. }) => {
                if found {
                    assert_eq!(result.unwrap().graft(), GraftId { index: 2 });
                } else {
                    assert_eq!(result.unwrap_err(), "missing Ivy entry 'iv:missing'");
                }
            }
            port => panic!("{:?}", port),
        }
    }
    assert!(!runner.service_ivy_requests(&vec![]));
    assert!(!epoch(&mut runner, false, 0));
    let outcome = runner.finish();
    assert!(outcome.success());
    assert_eq!(outcome.stats.call, 4);
}

#[test]
fn a_program_learns_why_another_cannot_be_loaded() {
    let mut runner = runner(observe(), asking("{"));
    epoch(&mut runner, true, 0);
    let error = CompileError::Parse { message: text("unexpected end") };
    let parsed = vec![ParsedSource { source: text("{"), nets: Err(error) }];
    assert!(runner.service_ivy_requests(&parsed));
    epoch(&mut runner, true, 0);
    let call = runner.take_calls().pop().unwrap();
    match call.input.payload {
        Payload::CompileResult(Err(message)) => assert_eq!(message, "unexpected end"),
        payload => panic!("{:?}", payload),
    }
    assert!(runner.take_calls().is_empty());
}

fn done<T>(progress: RunProgress<T>) -> RunOutcome {
    match progress {
        RunProgress::Done(outcome) => outcome,
        RunProgress::Suspended(_) => panic!("the run is not over"),
    }
}

fn suspended<T>(progress: RunProgress<T>) -> Suspended<T> {
    match progress {
        RunProgress::Done(_) => panic!("the run is over"),
        RunProgress::Suspended(suspended) => suspended,
    }
}

#[test]
fn a_run_that_needs_no_host_goes_to_its_end() {
    let loading = || {
        let value = ExtVal { ty_id: 0, payload: Payload::Text(text("source")) };
        let nodes = vec![
            FlatNode::Comb { label: 0, principal: 0, left: 1, right: 1 },
            FlatNode::Value { value, port: 2 },
            FlatNode::ExtFn { path: text("root:ivy:parse"), principal: 2, left: 3, right: 4 },
            FlatNode::Erase { port: 3 },
            FlatNode::Erase { port: 4 },
        ];
        vec![(text("iv:main"), FlatNet { wires: 5, nodes })]
    };
    for (breadth_first, workers, depth) in [(false, 0, 0), (false, 2, 0), (true, 0, 4)] {
        let parsed = vec![ParsedSource { source: text("source"), nets: Ok(multi_entry()) }];
        let runner = runner(vec![], loading());
        let outcome = done(runner.normalize(breadth_first, workers, &mut (), &parsed));
        assert!(outcome.flags.ext_erase);
        assert!(!outcome.flags.no_io);
        assert!(!outcome.flags.vicious);
        assert_eq!(outcome.stats.call, 1);
        assert_eq!(outcome.stats.depth, depth);
        assert_eq!(outcome.stats.mem_alloc, outcome.stats.mem_free);
    }
}

#[test]
fn a_run_waits_for_texts_and_calls() {
    for (breadth_first, workers) in [(false, 0), (true, 0), (false, 3)] {
        let mut parsed: Vec<ParsedSource> = vec![];
        let mut hooks = Counting { now: 0, tick: 0, end: 0 };
        let runner = runner(observe(), asking("source"));
        let waiting = suspended(runner.normalize(breadth_first, workers, &mut hooks, &parsed));
        assert!(matches!(waiting.epoch, Epoch::Closed));
        assert_eq!(waiting.runner.awaited_sources(), vec![text("source")]);
        assert_eq!(waiting.runner.runtime.host.ivm.programs.len(), 0);
        parsed.push(ParsedSource { source: text("other"), nets: Ok(vec![]) });
        let waiting = suspended(waiting.resume(&mut hooks, &parsed));
        assert_eq!(waiting.runner.awaited_sources(), vec![text("source")]);
        parsed.push(ParsedSource { source: text("source"), nets: Ok(multi_entry()) });
        let mut waiting = suspended(waiting.resume(&mut hooks, &parsed));
        assert!(!matches!(waiting.epoch, Epoch::Closed));
        assert!(waiting.runner.awaited_sources().is_empty());
        assert_eq!(waiting.runner.runtime.host.ivm.programs.len(), 1);
        for call in waiting.runner.take_calls() {
            waiting.runner.runtime.link_wire(call.left, Port::Erase);
            waiting.runner.runtime.link_wire(call.right, Port::Erase);
        }
        let outcome = done(waiting.resume(&mut hooks, &parsed));
        assert!(outcome.success());
        let epochs = if workers > 0 { 0 } else { 2 };
        assert_eq!((hooks.now, hooks.end), (epochs, epochs));
    }
}

#[test]
fn a_run_does_not_load_what_cannot_be_encoded() {
    let nodes = vec![FlatNode::ExtFn { path: text("no:such"), principal: 0, left: 1, right: 2 }];
    let nets = vec![(text("iv:first"), FlatNet { wires: 3, nodes })];
    let parsed = vec![ParsedSource { source: text("source"), nets: Ok(nets) }];
    let runner = runner(observe(), asking("source"));
    let waiting = suspended(runner.normalize(false, 0, &mut (), &parsed));
    assert_eq!(waiting.runner.awaited_sources(), vec![text("source")]);
    assert!(waiting.runner.runtime.host.ivm.programs.is_empty());
}

struct Counting {
    now: u32,
    tick: u32,
    end: u32,
}

impl Hooks for Counting {
    type Instant = u32;

    fn now(&mut self) -> u32 {
        self.now += 1;
        self.now
    }

    fn tick(&mut self, start: &u32, _stats: &mut Stats) {
        assert_eq!(*start, self.now);
        self.tick += 1;
    }

    fn end(&mut self, start: &u32, _stats: &mut Stats) {
        assert_eq!(*start, self.now);
        self.end += 1;
    }
}

fn word(bits: u64) -> Port {
    Port::new_ext_val(ExtVal { ty_id: 0, payload: Payload::Opaque { bits, copy: true } })
}

#[test]
fn calls_interrupt_an_epoch() {
    let mut runner = runner(observe(), vec![(text("iv:main"), identity())]);
    for bits in [1, 2] {
        let node = runner.runtime.new_node(Tag::ExtFn, 3);
        runner.runtime.link(node.0, word(bits));
        runner.runtime.link_wire(node.1, Port::Erase);
        runner.runtime.link_wire(node.2, Port::Erase);
    }
    let mut hooks = Counting { now: 0, tick: 0, end: 0 };
    let mut epoch = Epoch::Closed;
    for bits in [2, 1] {
        epoch = runner.run_epoch(false, 0, &mut hooks, epoch);
        assert!(matches!(epoch, Epoch::DepthFirst { start: 1 }));
        assert!(!runner.runtime.is_quiescent());
        let mut calls = runner.take_calls();
        assert_eq!(calls.len(), 1);
        let call = calls.pop().unwrap();
        match call.input.payload {
            Payload::Opaque { bits: found, .. } => assert_eq!(found, bits),
            payload => panic!("{:?}", payload),
        }
        runner.runtime.link_wire(call.left, Port::Erase);
        runner.runtime.link_wire(call.right, Port::Erase);
    }
    let epoch = runner.run_epoch(false, 0, &mut hooks, epoch);
    assert!(matches!(epoch, Epoch::Closed));
    let outcome = runner.finish();
    assert!(outcome.success());
    assert_eq!((hooks.now, hooks.tick, hooks.end), (1, 8, 1));
    assert_eq!(outcome.stats.erase + outcome.stats.call + 2, 8);
}

#[test]
fn calls_are_answered_within_their_round() {
    let mut runner = runner(observe(), vec![(text("iv:main"), identity())]);
    let called = runner.runtime.new_node(Tag::ExtFn, 3);
    let copier = runner.runtime.new_node(Tag::Comb, 1);
    runner.runtime.link(called.0, word(1));
    runner.runtime.link_wire(called.1, copier.0);
    runner.runtime.link_wire(called.2, Port::Erase);
    runner.runtime.link_wire(copier.1, Port::Erase);
    runner.runtime.link_wire(copier.2, Port::Erase);
    let first = runner.runtime.new_node(Tag::Comb, 6);
    let second = runner.runtime.new_node(Tag::Comb, 7);
    runner.runtime.link(first.0, second.0);
    let mut ends = [Port::Erase, Port::Erase];
    for _ in 0..4 {
        ends = ends.map(|end| {
            let node = runner.runtime.new_node(Tag::Comb, 5);
            runner.runtime.link_wire(node.1, end);
            runner.runtime.link_wire(node.2, Port::Erase);
            node.0
        });
    }
    let [left, right] = ends;
    runner.runtime.link(left, right);
    for wire in [first.1, first.2, second.1, second.2] {
        runner.runtime.link_wire(wire, Port::Erase);
    }
    let mut hooks = Counting { now: 0, tick: 0, end: 0 };
    let epoch = runner.run_epoch(true, 0, &mut hooks, Epoch::Closed);
    assert_eq!(runner.runtime.stats.depth, 0);
    assert_eq!(runner.runtime.stats.commute, 0);
    let call = runner.take_calls().pop().unwrap();
    runner.runtime.link_wire(call.left, word(2));
    runner.runtime.link_wire(call.right, Port::Erase);
    let epoch = runner.run_epoch(true, 0, &mut hooks, epoch);
    assert!(matches!(epoch, Epoch::Closed));
    let outcome = runner.finish();
    assert!(outcome.success());
    assert_eq!(outcome.stats.commute, 1);
    assert_eq!(outcome.stats.depth, 5);
    assert_eq!((hooks.now, hooks.tick, hooks.end), (1, 6, 1));
}

#[test]
fn messages_are_put_together() {
    let mut flags = Flags::default();
    assert!(flags.success());
    flags.no_io = true;
    flags.vicious = true;
    let outcome = RunOutcome {
        stats: Stats::default(),
        flags,
        ivy_errors: vec![
            CompileError::Parse { message: text("one") },
            CompileError::Flatten { message: text("two") },
        ],
    };
    assert!(!outcome.success());
    assert_eq!(
        outcome.error_message(true),
        "Error: dynamic Ivy load failed: one\n\n\
         Error: dynamic Ivy load failed: two\n\n\
         Error: the net did not return its `IO` handle\n  \
         hint: try running the program in `--debug` mode to see error messages\n\
         Error: the net created a vicious circle"
    );
    let loading = RunOutcome { flags: Flags::default(), ..outcome };
    assert!(!loading.success());
    assert_eq!(
        loading.error_message(false),
        "Error: dynamic Ivy load failed: one\n\nError: dynamic Ivy load failed: two"
    );
}

#[test]
fn every_flag_has_a_message() {
    let flags = Flags {
        ext_copy: true,
        ext_erase: true,
        ext_generic: true,
        no_io: false,
        vicious: false,
    };
    assert_eq!(
        flags.error_message(true),
        "Error: a linear extrinsic was copied\n\
         Error: a linear extrinsic was erased\n\
         Error: an extrinsic function encountered an unspecified error"
    );
}

#[test]
fn output_is_captured() {
    let mut capture = CaptureOutput::default();
    assert_eq!(capture.write(b"hello "), 6);
    assert_eq!(capture.write(b""), 0);
    assert_eq!(capture.write(b"world"), 5);
    assert_eq!(capture.into_output(), b"hello world");
}

#[test]
fn there_is_one_way_to_fail_to_run() {
    assert_eq!(RunError::EntryDoesntExist, RunError::EntryDoesntExist);
}
