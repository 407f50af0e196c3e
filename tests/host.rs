use kitsune_p2p_dht::coords::{GridConfig, RegionCoord};
use kitsune_p2p_dht::idk::{set_idk, ErrIdk, HostIdk, IdkT, WasmError, IDK_NOT_REGISTERED};
use kitsune_p2p_dht::reconcile::{reconcile_step, Step};
use kitsune_p2p_dht::region_data::{OpHash, RegionData};
use kitsune_p2p_dht::tree::{CoverageTree, OpData};
use kitsune_p2p_dht::workflow::{
    call_permitted, keep_running, CallTargetKind, ConsumerState, HostFnAccess, Permission, Wake,
    WorkComplete,
};
use kitsune_p2p_dht::zome::{WasmHash, WasmZome, Zome, ZomeDef, ZomeError, ZomeName};

#[test]
fn err_idk_always_fails_not_registered() {
    let idk = ErrIdk;
    match idk.hash(vec![1, 2, 3]) {
        Err(WasmError::Guest(s)) => assert_eq!(s, IDK_NOT_REGISTERED),
        _ => panic!("expected the placeholder error"),
    }
    assert!(matches!(idk.dna_info(), Err(WasmError::Guest(_))));
    assert!(matches!(ErrIdk::err::<u8>(), Err(WasmError::Guest(s)) if s == "IDK not registered"));
}

#[test]
fn set_idk_swaps_in_new_capability() {
    let mut slot = ErrIdk;
    let _prev: ErrIdk = set_idk(&mut slot, ErrIdk);
    let _host = HostIdk::new();
}

#[test]
fn zome_accessors_and_wasm_hash() {
    let name = ZomeName("foo".to_string());
    let def = ZomeDef::from_hash(WasmHash(vec![7, 8, 9]));
    let z = Zome::new(name, def);
    assert_eq!(z.zome_name().0, "foo");
    match z.zome_def().wasm_hash(z.zome_name()) {
        Ok(h) => assert_eq!(h.0, vec![7, 8, 9]),
        Err(_) => panic!("wasm zome has a hash"),
    }
    let inline = ZomeDef::Inline("uid".to_string());
    match inline.wasm_hash(&ZomeName("bar".to_string())) {
        Err(ZomeError::NonWasmZome(n)) => assert_eq!(n.0, "bar"),
        Ok(_) => panic!("inline zome has no wasm hash"),
    }
    let (n, d) = z.into_inner();
    assert_eq!(n.0, "foo");
    assert!(matches!(d, ZomeDef::Wasm(WasmZome { .. })));
    let z2 = Zome::from((ZomeName("x".to_string()), ZomeDef::Wasm(WasmZome::new(WasmHash(vec![1])))));
    let back: ZomeName = ZomeName::from(z2);
    assert_eq!(back.0, "x");
}

#[test]
fn consumer_triggers_itself_while_work_remains() {
    let mut s = ConsumerState::new();
    let a = s.after_run(WorkComplete::Incomplete);
    assert!(a.trigger_self);
    assert!(a.notify_first);
    let b = s.after_run(WorkComplete::Complete);
    assert!(!b.trigger_self);
    assert!(!b.notify_first);
    assert!(keep_running(Wake::Job));
    assert!(!keep_running(Wake::TriggerClosed));
    assert!(!keep_running(Wake::Stop));
}

#[test]
fn call_permissions_by_target() {
    let all = HostFnAccess {
        agent_info: Permission::Allow,
        read_workspace: Permission::Allow,
        write_workspace: Permission::Allow,
        write_network: Permission::Deny,
    };
    assert!(call_permitted(CallTargetKind::ConductorCell, all));
    assert!(!call_permitted(CallTargetKind::NetworkAgent, all));
    let no_agent = HostFnAccess { agent_info: Permission::Deny, ..all };
    assert!(!call_permitted(CallTargetKind::ConductorCell, no_agent));
}

#[test]
fn region_data_mass_is_its_size() {
    assert_eq!(RegionData::MASS, std::mem::size_of::<RegionData>());
}

#[test]
fn step_decides_match_leaf_or_descend() {
    let cfg = GridConfig { time_quantum: 10, depth: 1 };
    let ops = vec![OpData { hash: OpHash([1u8; 32]), size: 5, time: 3, loc: 7 }];
    let t = CoverageTree::build(cfg, &ops);
    let root = GridConfig::root();
    let same = t.query(root);
    assert!(matches!(reconcile_step(&t, root, same), Step::Match));
    match reconcile_step(&t, root, RegionData::zero()) {
        Step::Descend(ch) => assert_eq!(ch[0], RegionCoord { level: 1, time_index: 0, loc_index: 0 }),
        _ => panic!("expected descent"),
    }
    let leaf = RegionCoord { level: 1, time_index: 0, loc_index: 0 };
    match reconcile_step(&t, leaf, RegionData::zero()) {
        Step::Divergent(c) => assert_eq!(c, leaf),
        _ => panic!("expected a divergent leaf"),
    }
}
