use chainvisor_state::delta::{
    build_delta, fields_or_empty, snapshot_original, snapshot_post, Bundle, BundleAccount,
    BundleSlot, ContractCode, Stats,
};
use chainvisor_state::emit::{
    block_age_secs, execution_outcome_at_block, now_unix, revert_record, segment_name,
    staging_name, unix_seconds, write_revert, Action, BlockHeader, ChainBlock, ChainData,
    ChainEmission, EmitStep, Emitter, Event, Phase, Segment, PARK_AFTER,
};
use chainvisor_state::hash::{hex_address, hex_b256, hex_u256, keccak256};
use chainvisor_state::json::{record_bytes, record_bytes_pretty, Json};
use chainvisor_state::primitives::{Address, B256, U256};
use chainvisor_state::snapshot::{AcctFields, SlotKey, Snapshot};

/// The JSON text of a value, without white space.
fn print(j: &Json) -> String {
    match j {
        Json::Null => "null".to_string(),
        Json::Bool(b) => b.to_string(),
        Json::Number(n) => n.to_string(),
        Json::Text(s) => format!("\"{s}\""),
        Json::List(items) => {
            format!("[{}]", items.iter().map(print).collect::<Vec<_>>().join(","))
        }
        Json::Object(members) => {
            let said: Vec<String> =
                members.iter().map(|(k, v)| format!("\"{k}\":{}", print(v))).collect();
            format!("{{{}}}", said.join(","))
        }
    }
}

fn member<'a>(j: &'a Json, name: &str) -> &'a Json {
    match j {
        Json::Object(members) => &members.iter().find(|(k, _)| k == name).unwrap().1,
        _ => panic!("no object"),
    }
}

fn addr(n: u128) -> Address {
    Address { hi: 0, lo: n }
}

fn fields(balance: u64, nonce: u64, code_hash: B256) -> AcctFields {
    AcctFields { balance: U256::from_u64(balance), nonce, code_hash }
}

fn empty_code() -> B256 {
    fields_or_empty(None).code_hash
}

fn slot(key: u64, before: u64, after: u64) -> BundleSlot {
    BundleSlot {
        key: U256::from_u64(key),
        previous_or_original_value: U256::from_u64(before),
        present_value: U256::from_u64(after),
    }
}

fn header(number: u64) -> BlockHeader {
    BlockHeader {
        number,
        hash: B256::repeat_byte(number as u8),
        parent_hash: B256::repeat_byte(number as u8 - 1),
        timestamp: 1000 + number,
        gas_limit: 30,
        base_fee_per_gas: Some(7),
        mix_hash: B256::repeat_byte(0xee),
        beneficiary: addr(0xbe),
        excess_blob_gas: None,
    }
}

fn address_text(n: u128) -> String {
    format!("0x{n:040x}")
}

fn hash_text(byte: &str) -> String {
    "0x".to_string() + &byte.repeat(32)
}

#[test]
fn digests_and_words_are_printed() {
    let empty = keccak256(&[]);
    assert_eq!(
        hex_b256(&empty),
        "0xc5d2460186f7233c927e7db2dcc703c0e500b653ca82273b7bfad8045d85a470"
    );
    assert_eq!(empty, empty_code());
    assert_eq!(
        hex_b256(&keccak256(b"abc")),
        "0x4e03657aea45a94fc7d47ba826c8d667c0d1e6e33a64a036ec44f58fa12d6c45"
    );
    assert_eq!(hex_address(&addr(0xbe)), address_text(0xbe));
    assert_eq!(hex_u256(U256::zero()), "0x0");
    assert_eq!(hex_u256(U256::from_u64(0x1f0)), "0x1f0");
    assert_eq!(hex_u256(U256 { hi: 1, lo: 0 }), format!("0x1{}", "0".repeat(32)));
}

#[test]
fn a_snapshot_keeps_the_last_value_in_key_order() {
    let mut s = Snapshot::new();
    s.set_account(addr(2), None);
    s.set_account(addr(1), Some(fields(1, 1, empty_code())));
    s.set_account(addr(2), Some(fields(5, 0, empty_code())));
    let at = SlotKey { addr: addr(1), key: U256::from_u64(3) };
    s.set_slot(at, U256::from_u64(9));
    assert_eq!(s.account(&addr(2)), Some(Some(fields(5, 0, empty_code()))));
    assert_eq!(s.account(&addr(3)), None);
    assert_eq!(s.slot(&at), Some(U256::from_u64(9)));
    assert_eq!(s.slot(&SlotKey { addr: addr(2), ..at }), None);
    assert_eq!(s.accounts.iter().map(|r| r.addr.lo).collect::<Vec<_>>(), [1, 2]);
}

fn bundle() -> Bundle {
    Bundle {
        state: vec![
            BundleAccount {
                addr: addr(2),
                original_info: None,
                info: Some(fields(16, 1, B256::repeat_byte(0xc0))),
                storage: vec![slot(9, 0, 1), slot(1, 5, 5), slot(2, 4, 0)],
            },
            BundleAccount {
                addr: addr(1),
                original_info: Some(fields(10, 3, empty_code())),
                info: Some(fields(7, 4, empty_code())),
                storage: vec![],
            },
            BundleAccount {
                addr: addr(3),
                original_info: Some(fields(1, 1, empty_code())),
                info: Some(fields(1, 1, empty_code())),
                storage: vec![slot(0, 1, 2)],
            },
        ],
        contracts: vec![ContractCode { hash: B256::repeat_byte(0xc0), code: vec![0x60, 0x0a] }],
    }
}

#[test]
fn a_delta_holds_what_moved_in_key_order() {
    let b = bundle();
    let original = snapshot_original(&b);
    let post = snapshot_post(&b);
    let mut stats = Stats::new();
    let delta = build_delta(&original, None, &post, &b, &mut stats);
    let (a1, a2, a3) = (address_text(1), address_text(2), address_text(3));
    let (empty, c0) = (hex_b256(&empty_code()), hash_text("c0"));
    let expected = format!(
        "{{\"accounts\":[\
         {{\"addr\":\"{a1}\",\"exists\":[true,true],\"balance\":[\"0xa\",\"0x7\"],\"nonce\":[3,4]}},\
         {{\"addr\":\"{a2}\",\"exists\":[false,true],\"balance\":[\"0x0\",\"0x10\"],\"nonce\":[0,1],\
         \"code_hash\":[\"{empty}\",\"{c0}\"]}}],\
         \"storage\":[\
         {{\"addr\":\"{a2}\",\"slots\":[{{\"key\":\"0x2\",\"pre\":\"0x4\",\"post\":\"0x0\"}},\
         {{\"key\":\"0x9\",\"pre\":\"0x0\",\"post\":\"0x1\"}}]}},\
         {{\"addr\":\"{a3}\",\"slots\":[{{\"key\":\"0x0\",\"pre\":\"0x1\",\"post\":\"0x2\"}}]}}],\
         \"code\":[{{\"hash\":\"{c0}\",\"code\":\"0x600a\"}}]}}"
    );
    assert_eq!(print(&delta), expected);
    assert_eq!(stats, Stats { blocks: 0, accounts: 2, slots: 3, code: 1, bytes: 0 });
    build_delta(&original, None, &post, &b, &mut stats);
    assert_eq!((stats.accounts, stats.slots, stats.code), (4, 6, 2));
}

#[test]
fn what_did_not_move_is_not_told() {
    let b = bundle();
    let post = snapshot_post(&b);
    let mut stats = Stats::new();
    let delta = build_delta(&snapshot_original(&b), Some(&post), &post, &b, &mut stats);
    assert_eq!(print(&delta), "{\"accounts\":[],\"storage\":[],\"code\":[]}");
    assert_eq!(stats, Stats::new());
}

#[test]
fn an_account_that_ceases_to_exist_is_told_apart() {
    let b = Bundle {
        state: vec![BundleAccount {
            addr: addr(1),
            original_info: Some(fields(0, 0, empty_code())),
            info: None,
            storage: vec![],
        }],
        contracts: vec![],
    };
    let mut stats = Stats::new();
    let delta = build_delta(&snapshot_original(&b), None, &snapshot_post(&b), &b, &mut stats);
    assert_eq!(
        print(member(&delta, "accounts")),
        format!("[{{\"addr\":\"{}\",\"exists\":[true,false]}}]", address_text(1))
    );
}

fn two_blocks() -> ChainData {
    let at = |balance: u64, nonce: u64, storage: Vec<BundleSlot>| Bundle {
        state: vec![BundleAccount {
            addr: addr(1),
            original_info: Some(fields(100, 0, empty_code())),
            info: Some(fields(balance, nonce, empty_code())),
            storage,
        }],
        contracts: vec![],
    };
    ChainData {
        aggregate: at(80, 2, vec![slot(1, 0, 6)]),
        blocks: vec![
            ChainBlock { header: header(5), outcome: Some(at(90, 1, vec![])) },
            ChainBlock { header: header(6), outcome: Some(at(80, 2, vec![slot(1, 0, 6)])) },
        ],
    }
}

fn written(step: EmitStep) -> Segment {
    match step {
        EmitStep::Write(segment) => segment,
        other => panic!("{other:?}"),
    }
}

#[test]
fn each_block_of_a_chain_has_its_own_delta() {
    let chain = two_blocks();
    let mut emission = ChainEmission::new(&chain);
    let first = written(emission.next(&chain, 77));
    assert_eq!(first.name, "cvsd~v1~blk~000000000005.json");
    let moved = format!(
        "[{{\"addr\":\"{}\",\"exists\":[true,true],\"balance\":[\"0x64\",\"0x5a\"],\"nonce\":[0,1]}}]",
        address_text(1)
    );
    assert_eq!(print(member(member(&first.record, "delta"), "accounts")), moved);
    assert_eq!(print(member(member(&first.record, "delta"), "storage")), "[]");
    emission.wrote(&chain, &first.stats, 120);
    let second = written(emission.next(&chain, 77));
    assert_eq!(second.name, "cvsd~v1~blk~000000000006.json");
    let moved = format!(
        "[{{\"addr\":\"{}\",\"exists\":[true,true],\"balance\":[\"0x5a\",\"0x50\"],\"nonce\":[1,2]}}]",
        address_text(1)
    );
    assert_eq!(print(member(member(&second.record, "delta"), "accounts")), moved);
    emission.wrote(&chain, &second.stats, 130);
    assert!(matches!(emission.next(&chain, 77), EmitStep::Done));
    assert_eq!(
        emission.stats,
        Stats { blocks: 2, accounts: 2, slots: 1, code: 0, bytes: 250 }
    );
}

#[test]
fn a_single_block_takes_its_delta_from_the_aggregate() {
    let mut chain = two_blocks();
    chain.blocks.remove(0);
    chain.blocks[0].outcome = None;
    let segment = written(ChainEmission::new(&chain).next(&chain, 3));
    let head = format!(
        "{{\"v\":1,\"kind\":\"commit\",\"block\":6,\"hash\":\"{}\",\"parent\":\"{}\",\"ts\":1006,\
         \"src\":\"exex\",\"emit_unix\":3,\"header\":{{\"gas_limit\":30,\"basefee\":7,\
         \"prevrandao\":\"{}\",\"beneficiary\":\"{}\",\"excess_blob_gas\":null}},\"delta\":",
        hash_text("06"),
        hash_text("05"),
        hash_text("ee"),
        address_text(0xbe)
    );
    let said = print(&segment.record);
    assert!(said.starts_with(&head), "{said}");
    assert!(said.ends_with(",\"unmodeled\":[],\"unmodeled_addrs\":[]}"));
    assert!(said.contains("\"balance\":[\"0x64\",\"0x50\"]"));
}

#[test]
fn a_block_without_an_outcome_stops_the_chain() {
    let mut chain = two_blocks();
    chain.blocks[1].outcome = None;
    assert!(execution_outcome_at_block(&chain, 5).is_some());
    assert!(execution_outcome_at_block(&chain, 6).is_none());
    assert!(execution_outcome_at_block(&chain, 7).is_none());
    let mut emission = ChainEmission::new(&chain);
    let first = written(emission.next(&chain, 0));
    emission.wrote(&chain, &first.stats, 1);
    assert!(matches!(emission.next(&chain, 0), EmitStep::NoOutcome(6)));
}

#[test]
fn a_revert_is_spooled_under_its_first_block() {
    let chain = two_blocks();
    let segment = write_revert(&chain, 9);
    assert_eq!(segment.name, "cvsd~v1~blk~000000000005.json");
    assert_eq!(print(&segment.record), print(&revert_record(5, &header(6), 9)));
    let mut tip = header(6);
    tip.base_fee_per_gas = None;
    assert_eq!(
        print(&revert_record(5, &tip, 9)),
        format!(
            "{{\"v\":1,\"kind\":\"revert\",\"block\":6,\"first\":5,\"hash\":\"{}\",\
             \"parent\":\"{}\",\"ts\":1006,\"src\":\"exex\",\"emit_unix\":9,\
             \"header\":{{\"gas_limit\":30,\"basefee\":0,\"prevrandao\":\"{}\",\
             \"beneficiary\":\"{}\"}},\
             \"delta\":{{\"accounts\":[],\"storage\":[],\"code\":[]}}}}",
            hash_text("06"),
            hash_text("05"),
            hash_text("ee"),
            address_text(0xbe)
        )
    );
}

#[test]
fn names_are_padded_and_staged() {
    assert_eq!(segment_name(0), "cvsd~v1~blk~000000000000.json");
    assert_eq!(segment_name(1_234_567_890_123), "cvsd~v1~blk~1234567890123.json");
    assert_eq!(staging_name("a.json"), ".tmp-a.json");
}

#[test]
fn the_clock_reads_seconds_since_the_epoch() {
    assert!(now_unix() > 1_600_000_000);
    assert_eq!(unix_seconds(None), 0);
    assert_eq!(unix_seconds(Some(12)), 12);
    assert_eq!(block_age_secs(10, 4), 6);
    assert_eq!(block_age_secs(4, 10), 0);
}

fn commit(emitter: &mut Emitter, ok: bool) -> Action {
    let action = emitter.on(Event::Notification { reverted: false, committed: true });
    let action = match action {
        Action::EmitChain if ok => emitter.on(Event::ChainEmitted { blocks: 2 }),
        Action::EmitChain => emitter.on(Event::ChainFailed),
        other => other,
    };
    assert_eq!(emitter.on(Event::Acknowledged), Action::Await);
    action
}

#[test]
fn the_emitter_parks_after_consecutive_failures_and_still_acknowledges() {
    let mut emitter = Emitter::new();
    assert_eq!(commit(&mut emitter, true), Action::Acknowledge { parking: false });
    assert_eq!(emitter.emitted, 2);
    for _ in 0..PARK_AFTER - 1 {
        assert_eq!(commit(&mut emitter, false), Action::Acknowledge { parking: false });
    }
    assert_eq!(commit(&mut emitter, true), Action::Acknowledge { parking: false });
    assert_eq!(emitter.failures, 0);
    for _ in 0..PARK_AFTER - 1 {
        commit(&mut emitter, false);
    }
    assert!(!emitter.parked);
    assert_eq!(commit(&mut emitter, false), Action::Acknowledge { parking: true });
    assert!(emitter.parked);
    assert_eq!(commit(&mut emitter, true), Action::Acknowledge { parking: false });
    assert_eq!(emitter.emitted, 4);
    assert_eq!(
        emitter.on(Event::Notification { reverted: true, committed: false }),
        Action::Await
    );
}

#[test]
fn a_reorg_is_reverted_before_it_is_committed() {
    let mut emitter = Emitter::new();
    assert_eq!(
        emitter.on(Event::Notification { reverted: true, committed: true }),
        Action::WriteRevert
    );
    assert_eq!(emitter.on(Event::RevertFailed), Action::EmitChain);
    assert_eq!(emitter.failures, 1);
    assert_eq!(
        emitter.on(Event::ChainEmitted { blocks: 1 }),
        Action::Acknowledge { parking: false }
    );
    assert_eq!(emitter.on(Event::Acknowledged), Action::Await);
    assert_eq!(
        emitter.on(Event::Notification { reverted: true, committed: false }),
        Action::WriteRevert
    );
    assert_eq!(emitter.on(Event::RevertWritten), Action::Await);
    assert_eq!(emitter.on(Event::StreamFailed), Action::Stop);
    assert_eq!(emitter.phase, Phase::Stopped);
    assert_eq!(Emitter::new().on(Event::StreamEnded), Action::Stop);
}

fn revert(emitter: &mut Emitter, ok: bool, committed: bool) -> Action {
    match emitter.on(Event::Notification { reverted: true, committed }) {
        Action::WriteRevert if ok => emitter.on(Event::RevertWritten),
        Action::WriteRevert => emitter.on(Event::RevertFailed),
        other => other,
    }
}

#[test]
fn reverts_that_cannot_be_spooled_park_the_emitter() {
    let mut emitter = Emitter::new();
    for _ in 0..PARK_AFTER - 1 {
        assert_eq!(revert(&mut emitter, false, false), Action::Await);
    }
    assert_eq!(emitter.failures, PARK_AFTER - 1);
    assert_eq!(revert(&mut emitter, true, false), Action::Await);
    assert_eq!(emitter.failures, 0);
    for _ in 0..PARK_AFTER - 1 {
        assert_eq!(revert(&mut emitter, false, false), Action::Await);
    }
    assert!(!emitter.parked);
    assert_eq!(revert(&mut emitter, false, false), Action::ParkThenAwait);
    assert!(emitter.parked);
    assert_eq!(revert(&mut emitter, false, false), Action::Await);
    assert_eq!(revert(&mut emitter, false, true), Action::Acknowledge { parking: false });
}

#[test]
fn a_commit_behind_the_last_failed_revert_is_only_acknowledged() {
    let mut emitter = Emitter::new();
    for _ in 0..PARK_AFTER - 1 {
        commit(&mut emitter, false);
    }
    assert_eq!(revert(&mut emitter, false, true), Action::Acknowledge { parking: true });
    assert!(emitter.parked);
    assert_eq!(emitter.on(Event::Acknowledged), Action::Await);
    assert_eq!(emitter.emitted, 0);
}

#[test]
fn a_height_that_cannot_be_acknowledged_does_not_stop_the_emitter() {
    let mut emitter = Emitter::new();
    emitter.on(Event::Notification { reverted: false, committed: true });
    assert_eq!(
        emitter.on(Event::ChainEmitted { blocks: 3 }),
        Action::Acknowledge { parking: false }
    );
    assert_eq!(emitter.on(Event::AcknowledgeFailed), Action::Await);
    assert_eq!(emitter.phase, Phase::Waiting);
    assert_eq!((emitter.emitted, emitter.failures, emitter.parked), (3, 0, false));
    assert_eq!(commit(&mut emitter, true), Action::Acknowledge { parking: false });
}

#[test]
fn a_delta_does_not_depend_on_the_order_of_what_it_is_made_of() {
    let mut b = bundle();
    let extra = ContractCode { hash: B256::repeat_byte(0xc1), code: vec![1] };
    b.contracts.push(extra);
    let mut c = bundle();
    c.state.reverse();
    c.contracts.insert(0, ContractCode { hash: B256::repeat_byte(0xc1), code: vec![1] });
    let delta = |b: &Bundle| {
        build_delta(&snapshot_original(b), None, &snapshot_post(b), b, &mut Stats::new())
    };
    assert_eq!(print(&delta(&b)), print(&delta(&c)));
    assert_eq!(record_bytes(&delta(&b)).unwrap(), record_bytes(&delta(&c)).unwrap());
}

fn member_of(name: &str, value: Json) -> (String, Json) {
    (name.to_string(), value)
}

#[test]
fn a_record_is_printed_by_what_it_says() {
    let record = Json::object(vec![
        member_of("n", Json::Number(u64::MAX)),
        member_of("b", Json::Bool(true)),
        member_of("n", Json::Number(7)),
        member_of("a", Json::list(vec![Json::Null, Json::text("x\"\n"), Json::object(vec![])])),
    ]);
    assert_eq!(
        String::from_utf8(record_bytes(&record).unwrap()).unwrap(),
        "{\"a\":[null,\"x\\\"\\n\",{}],\"b\":true,\"n\":7}"
    );
    let other = Json::object(vec![
        member_of("a", Json::list(vec![Json::Null, Json::text("x\"\n"), Json::object(vec![])])),
        member_of("n", Json::Number(7)),
        member_of("b", Json::Bool(true)),
    ]);
    assert_eq!(record_bytes(&record).unwrap(), record_bytes(&other).unwrap());
    let small = Json::object(vec![member_of("a", Json::numbers(&vec![1, 2]))]);
    assert_eq!(
        String::from_utf8(record_bytes_pretty(&small).unwrap()).unwrap(),
        "{\n  \"a\": [\n    1,\n    2\n  ]\n}"
    );
    assert_eq!(record_bytes(&Json::Null).unwrap(), b"null");
    assert_eq!(record_bytes(&Json::Number(3)).unwrap(), b"3");
    assert_eq!(record_bytes(&Json::list(vec![])).unwrap(), b"[]");
}
