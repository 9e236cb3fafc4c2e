use std::collections::BTreeMap;

use chainvisor_state::export::{
    anchor, can_warm, complete_from, finalize, marker_names, meta, object_path, read_marker,
    run_succeeds, store_base, table_name, table_named, wants, warmed_bytes, Complete, Incomplete,
    Lacks, NotFinal, Options,
};
use chainvisor_state::hash::keccak256;
use chainvisor_state::json::Json;
use chainvisor_state::marker::{
    number_or_zero, print_marker, progress_from, read_values, sizes_from, MarkerValues, Progress,
    Refusal,
};
use chainvisor_state::primitives::{append_be, read_be, read_le8, Address, B256, U256};
use chainvisor_state::shard::{
    parse_bound, shard_bounds, shard_name, warm_range, without_prefix, BoundError,
};
use chainvisor_state::sink::{
    assemble_index, fragment_key, index_key, part_key, progress_key, Command, Sink, SinkError,
};
use chainvisor_state::text::{
    chars_of, decimal, decimal_padded, hex_bytes, hex_cuts_whole, hex_decode, hex_encode,
    hex_value_of, pair_value_of, HexError,
};
use chainvisor_state::walk::{
    Answer, Corrupt, Cursor, HashedAccount, HashedSlot, Row, Table, Walk, WalkPhase, WalkStep,
};

// --------------------------------------------------------------------- words

#[test]
fn words_and_bytes_stand_for_each_other() {
    let bytes: Vec<u8> = (1..=32).collect();
    let h = B256::from_slice(&bytes);
    assert_eq!(h.hi, 0x0102030405060708090a0b0c0d0e0f10);
    assert_eq!(h.to_bytes(), bytes);
    assert_eq!(U256::from_slice(&bytes).to_bytes(), bytes);
    assert_eq!(Address::from_slice(&bytes[..20]).to_bytes(), &bytes[..20]);
    assert_eq!(U256::from_u64(258).to_bytes()[30..], [1, 2]);
    let mut out = vec![9];
    h.append_to(&mut out);
    assert_eq!(out.len(), 33);
    append_be(&mut out, 0x0a0b, 2);
    assert_eq!(out[33..], [10, 11]);
    assert_eq!(read_be(&out, 33, 2), 0x0a0b);
    assert_eq!(read_le8(&[0, 1, 2, 0, 0, 0, 0, 0, 0], 1), 513);
}

#[test]
fn words_are_ordered_as_their_bytes() {
    let small = B256 { hi: 1, lo: u128::MAX };
    let large = B256 { hi: 2, lo: 0 };
    assert!(small.is_before(&large));
    assert!(!large.is_before(&small));
    assert!(!small.is_before(&small));
    assert!(small.to_bytes() < large.to_bytes());
}

#[test]
fn hex_text_round_trips() {
    let bytes = vec![0, 1, 0xab, 0xff];
    assert_eq!(hex_encode(&bytes), "0001abff");
    assert_eq!(hex_bytes(&bytes), "0001abff");
    assert_eq!(hex_decode("0001abff").unwrap(), bytes);
    assert_eq!(hex_decode("ABFF").unwrap(), [0xab, 0xff]);
    assert_eq!(hex_decode("abc"), Err(HexError::Odd));
    assert_eq!(hex_decode("zz"), Err(HexError::Digit));
    assert_eq!(hex_decode("+1").unwrap(), [1]);
    assert_eq!(hex_decode("").unwrap(), [] as [u8; 0]);
    assert!(hex_cuts_whole("abcd"));
    assert!(hex_cuts_whole("\u{e9}"));
    assert!(!hex_cuts_whole("a\u{e9}b"));
    assert_eq!(hex_value_of('f'), Some(15));
    assert_eq!(hex_value_of('g'), None);
    assert_eq!(pair_value_of('1', 'F'), Some(31));
    assert_eq!(chars_of("a\u{e9}"), ['a', '\u{e9}']);
}

#[test]
fn numbers_are_printed_in_decimal() {
    assert_eq!(decimal(0), "0");
    assert_eq!(decimal(u64::MAX), "18446744073709551615");
    assert_eq!(decimal_padded(42, 5), "00042");
    assert_eq!(decimal_padded(123456, 5), "123456");
}

// -------------------------------------------------------------------- shards

fn bound(hi: u128) -> [u8; 32] {
    let mut out = [0u8; 32];
    out[..16].copy_from_slice(&hi.to_be_bytes());
    out
}

#[test]
fn shards_cover_the_key_space_without_overlap() {
    assert_eq!(shard_bounds(0, 1), (bound(0), None));
    assert_eq!(shard_bounds(0, 16), (bound(0), Some(bound(1 << 124))));
    assert_eq!(shard_bounds(3, 16), (bound(3 << 124), Some(bound(4 << 124))));
    assert_eq!(shard_bounds(15, 16), (bound(15 << 124), None));
    for n in [2, 3, 7, 100] {
        for i in 0..n - 1 {
            assert_eq!(shard_bounds(i, n).1, Some(shard_bounds(i + 1, n).0));
        }
    }
    assert_eq!(shard_name("slots", 3), "slots-03");
    assert_eq!(shard_name("accounts", 123), "accounts-123");
}

#[test]
fn warm_ranges_join_over_the_region() {
    let lo = bound(0x100);
    let hi = Some(bound(0x10a));
    let mut expected = 0x100u128;
    for i in 0..3 {
        let (a, b) = warm_range(&lo, &hi, i, 3);
        assert_eq!(a[..16], expected.to_be_bytes());
        assert!(b[16..].iter().all(|x| *x == 0xff));
        expected = if i == 2 { 0x10a } else { expected + 3 };
        assert_eq!(b[..16], expected.to_be_bytes());
    }
    let (_, b) = warm_range(&bound(0), &None, 0, 1);
    assert_eq!(b, [0xff; 32]);
}

#[test]
fn bounds_are_thirty_two_bytes_of_hex() {
    let text = format!("0x{}", "0f".repeat(32));
    assert_eq!(parse_bound(&text), Ok([0x0f; 32]));
    assert_eq!(parse_bound(&"0f".repeat(32)), Ok([0x0f; 32]));
    assert_eq!(parse_bound("0x0f"), Err(BoundError::Length(1)));
    assert_eq!(parse_bound("0xf"), Err(BoundError::Hex(HexError::Odd)));
    assert_eq!(parse_bound("qq"), Err(BoundError::Hex(HexError::Digit)));
    assert_eq!(without_prefix("0x0x12"), "12");
    assert_eq!(without_prefix("120x"), "120x");
}

// ------------------------------------------------------------------- markers

fn progress(part: u32, last_key: Option<Vec<u8>>, done: bool) -> Progress {
    Progress {
        part,
        count: 10,
        global_off: 960,
        last_key,
        sizes: (0..part as u64).map(|p| 480 + p).collect(),
        done,
    }
}

#[test]
fn a_marker_is_read_back_as_it_was_written() {
    let body = print_marker(77, &progress(2, Some(vec![1, 0xfe]), false)).unwrap();
    let text = String::from_utf8(body.clone()).unwrap();
    assert!(text.contains("\"last_key\":\"01fe\""), "{text}");
    assert!(text.contains("\"sizes\":[480,481]"), "{text}");
    let values = read_values(&body).unwrap();
    let p = progress_from(&values, 77).unwrap();
    assert_eq!((p.part, p.count, p.global_off, p.done), (2, 10, 960, false));
    assert_eq!(p.last_key, Some(vec![1, 0xfe]));
    assert_eq!(p.sizes, [480, 481]);
    let body = print_marker(77, &progress(0, None, true)).unwrap();
    let p = progress_from(&read_values(&body).unwrap(), 77).unwrap();
    assert!(p.done && p.last_key.is_none() && p.sizes.is_empty());
}

#[test]
fn members_that_are_missing_or_of_another_kind_are_absent() {
    let values =
        read_values(br#"{"block":"x","part":-1,"count":1.5,"sizes":[1,"a",2],"done":1}"#).unwrap();
    assert_eq!(values.block, None);
    assert_eq!(values.part, None);
    assert_eq!(values.count, None);
    assert_eq!(values.last_key, None);
    assert_eq!(values.done, None);
    assert_eq!(sizes_from(&values.sizes), [1, 2]);
    assert_eq!(read_values(b"[1,2]").unwrap().block, None);
    assert!(read_values(b"{").is_err());
    assert_eq!(number_or_zero(None), 0);
    assert_eq!(number_or_zero(Some(4)), 4);
    assert!(sizes_from(&None).is_empty());
}

fn values(block: u64, part: u64, last_key: Option<&str>, sizes: Vec<Option<u64>>) -> MarkerValues {
    MarkerValues {
        block: Some(block),
        part: Some(part),
        count: Some(3),
        global_off: Some(9),
        last_key: last_key.map(str::to_string),
        sizes: Some(sizes),
        done: Some(true),
    }
}

#[test]
fn a_marker_of_another_snapshot_is_refused() {
    assert_eq!(
        progress_from(&values(5, 0, None, vec![]), 6).unwrap_err(),
        Refusal::Block { marker: 5, database: 6 }
    );
    assert_eq!(
        progress_from(&values(6, 0, Some("abc"), vec![]), 6).unwrap_err(),
        Refusal::Key(HexError::Odd)
    );
    assert_eq!(
        progress_from(&values(6, 0, Some("xy"), vec![]), 6).unwrap_err(),
        Refusal::Key(HexError::Digit)
    );
    assert_eq!(
        progress_from(&values(6, 0, Some("a\u{e9}b"), vec![]), 6).unwrap_err(),
        Refusal::KeyText
    );
    assert_eq!(
        progress_from(&values(6, 2, None, vec![Some(1), None]), 6).unwrap_err(),
        Refusal::Sizes { part: 2, sizes: 1 }
    );
    let p = progress_from(&values(6, 1, Some(""), vec![Some(1)]), 6).unwrap();
    assert_eq!(p.last_key, None);
}

// ---------------------------------------------------------------------- sink

#[test]
fn objects_have_their_names() {
    assert_eq!(part_key("slots-03", 17), "slots-03.00017");
    assert_eq!(fragment_key("codes", 2), "idxfrag/codes.00002");
    assert_eq!(progress_key("codes"), "progress/codes.json");
    assert_eq!(index_key("codes"), "codes.idx");
    assert_eq!(store_base("s3://b/p//"), "s3://b/p");
    assert_eq!(object_path("s3://b/p", "meta.json"), "s3://b/p/meta.json");
}

/// The objects that were put, and those on their way.
#[derive(Default)]
struct Store {
    objects: BTreeMap<String, Vec<u8>>,
    in_flight: Vec<(String, Vec<u8>)>,
    log: Vec<String>,
}

impl Store {
    fn run(&mut self, commands: Vec<Command>) {
        for command in commands {
            match command {
                Command::Start { key, body } => {
                    self.log.push(format!("start {key}"));
                    self.in_flight.push((key, body));
                }
                Command::AwaitOldest => {
                    let (key, body) = self.in_flight.remove(0);
                    self.log.push(format!("landed {key}"));
                    self.objects.insert(key, body);
                }
                Command::Put { key, body } => {
                    self.log.push(format!("put {key}"));
                    self.objects.insert(key, body);
                }
            }
        }
    }

    fn get(&self, key: &str) -> Option<Vec<u8>> {
        self.objects.get(key).cloned()
    }
}

fn fresh(name: &str, part_bytes: usize, index_every: u64) -> Sink {
    Sink::open(&None, name, part_bytes, index_every, 9).unwrap().0
}

#[test]
fn fragment_and_marker_land_strictly_after_their_part() {
    let mut store = Store::default();
    let mut sink = fresh("t", 4, 2);
    for i in 0..3u8 {
        sink.push(&[i, i], &[i]);
        assert!(!sink.part_full());
        sink.push(&[i, i], &[i + 10]);
        assert!(sink.part_full());
        store.run(sink.flush(9, false).unwrap());
    }
    assert_eq!(
        store.log,
        [
            "start t.00000",
            "start t.00001",
            "landed t.00000",
            "put idxfrag/t.00000",
            "put progress/t.json",
            "start t.00002",
            "landed t.00001",
            "put idxfrag/t.00001",
            "put progress/t.json",
        ]
    );
    store.log.clear();
    store.run(sink.flush(9, true).unwrap());
    assert_eq!(
        store.log,
        ["landed t.00002", "put idxfrag/t.00002", "put progress/t.json", "put progress/t.json"]
    );
    assert_eq!(store.get("t.00001").unwrap(), [1, 1, 1, 1]);
    assert_eq!(store.get("idxfrag/t.00001").unwrap(), [1, 0, 0, 0, 0, 0, 0, 0, 4]);
    let (sink, done) = Sink::open(&store.get("progress/t.json"), "t", 4, 2, 9).unwrap();
    assert!(done);
    assert_eq!((sink.part, sink.count, sink.global_off), (3, 6, 12));
    assert_eq!(sink.sizes, [4, 4, 4]);
    assert_eq!(sink.last_key, Some(vec![12]));
}

#[test]
fn a_sink_opens_where_its_marker_says() {
    let body = print_marker(9, &progress(2, Some(vec![7]), false)).unwrap();
    let (sink, done) = Sink::open(&Some(body.clone()), "t", 4, 2, 9).unwrap();
    assert!(!done);
    assert_eq!((sink.part, sink.count), (2, 10));
    assert!(matches!(
        Sink::open(&Some(body), "t", 4, 2, 8),
        Err(SinkError::Refused(Refusal::Block { marker: 9, database: 8 }))
    ));
    assert!(matches!(Sink::open(&Some(vec![b'{']), "t", 4, 2, 9), Err(SinkError::Json(_))));
    let (sink, done) = Sink::open(&Some(vec![]), "t", 4, 2, 9).unwrap();
    assert!(!done && sink.part == 0 && sink.last_key.is_none());
    let (sink, done) =
        Sink::open_at(&values(9, 1, Some("07"), vec![Some(1)]), "t", 4, 2, 9).unwrap();
    assert!(done && sink.last_key == Some(vec![7]));
    assert_eq!(Sink::resume("t", 4, 2, progress(1, None, false)).sizes, [480]);
}

#[test]
fn the_index_needs_every_fragment() {
    let some = |b: u8| Some(vec![b, b]);
    assert_eq!(assemble_index(&vec![some(1), some(2)]), Ok(vec![1, 1, 2, 2]));
    assert_eq!(assemble_index(&vec![some(1), None, None]), Err(1));
    assert_eq!(assemble_index(&vec![]), Ok(vec![]));
}

// ---------------------------------------------------------------------- walk

fn word(n: u128) -> B256 {
    B256 { hi: n, lo: 0 }
}

fn account(n: u128) -> Row {
    Row::Account(HashedAccount {
        hashed: word(n),
        nonce: 3,
        balance: U256::from_u64(4),
        bytecode_hash: None,
    })
}

fn slot(a: u128, k: u128) -> Row {
    Row::Slot(HashedSlot { hashed_addr: word(a), key: word(k), value: U256::from_u64(5) })
}

fn code(bytes: &[u8]) -> Row {
    Row::Code { hash: keccak256(bytes), bytes: bytes.to_vec() }
}

fn copy(row: &Row) -> Row {
    match row {
        Row::Account(a) => Row::Account(*a),
        Row::Slot(s) => Row::Slot(*s),
        Row::Code { hash, bytes } => Row::Code { hash: *hash, bytes: bytes.clone() },
    }
}

/// A cursor over rows in key order.
struct Rows<'a> {
    rows: &'a [Row],
    at: usize,
}

impl Rows<'_> {
    fn here(&self) -> Answer {
        Answer::Row(self.rows.get(self.at).map(copy))
    }

    fn call(&mut self, call: Cursor) -> Answer {
        match call {
            Cursor::First => self.at = 0,
            Cursor::Seek(h) => {
                self.at = self.rows.iter().take_while(|r| r.head().is_before(&h)).count();
            }
            Cursor::Next => self.at += 1,
            Cursor::NextNoDup => {
                let head = self.rows[self.at].head();
                while self.rows.get(self.at).is_some_and(|r| r.head() == head) {
                    self.at += 1;
                }
            }
            Cursor::SeekSub(a, s) => {
                let found = self.rows.iter().position(|r| match r {
                    Row::Slot(x) => x.hashed_addr == a && !x.key.is_before(&s),
                    _ => false,
                });
                return Answer::Sub(found.map(|i| {
                    self.at = i;
                    match &self.rows[i] {
                        Row::Slot(x) => (x.key, x.value),
                        _ => unreachable!(),
                    }
                }));
            }
        }
        self.here()
    }
}

/// Exports a table into the store, over as many transactions as it takes.
fn export(rows: &[Row], table: Table, hi: Option<B256>, store: &mut Store) -> Result<(), Corrupt> {
    let (sink, done) = Sink::open(&store.get("progress/t.json"), "t", 150, 2, 9).unwrap();
    if done {
        return Ok(());
    }
    let mut walk = Walk::new(table, word(0), hi, sink);
    loop {
        let mut cursor = Rows { rows, at: 0 };
        let mut step = WalkStep::Call(walk.open());
        while let WalkStep::Call(call) = step {
            step = walk.on(cursor.call(call))?;
        }
        if step == WalkStep::Finish {
            break;
        }
        store.run(walk.sink.flush(9, false).unwrap());
    }
    store.run(walk.sink.flush(9, true).unwrap());
    let fragments = (0..walk.sink.part).map(|p| store.get(&fragment_key("t", p))).collect();
    let index = assemble_index(&fragments).unwrap();
    store.objects.insert(index_key("t"), index);
    Ok(())
}

fn parts(store: &Store) -> Vec<u8> {
    store
        .objects
        .iter()
        .filter(|(k, _)| k.starts_with("t.0"))
        .flat_map(|(_, v)| v.clone())
        .collect()
}

fn all_bytes(rows: &[Row]) -> Vec<u8> {
    rows.iter().flat_map(|r| r.record_bytes()).collect()
}

#[test]
fn every_record_is_exported_once_over_fresh_transactions() {
    let rows: Vec<Row> = (1..=7).map(account).collect();
    let mut store = Store::default();
    export(&rows, Table::Accounts, None, &mut store).unwrap();
    assert_eq!(parts(&store), all_bytes(&rows));
    let index = store.get("t.idx").unwrap();
    assert_eq!(index.len(), 4 * 40);
    for (i, entry) in index.chunks(40).enumerate() {
        assert_eq!(entry[..32], rows[2 * i].record_key());
        assert_eq!(entry[32..], (2 * i as u64 * 104).to_be_bytes());
    }
}

#[test]
fn slots_are_resumed_within_and_across_addresses() {
    let rows: Vec<Row> =
        [(1, 1), (1, 2), (1, 3), (2, 1), (4, 4), (4, 5)].map(|(a, k)| slot(a, k)).into();
    let mut store = Store::default();
    export(&rows, Table::Slots, None, &mut store).unwrap();
    assert_eq!(parts(&store), all_bytes(&rows));
    let mut shard = Store::default();
    export(&rows, Table::Slots, Some(word(4)), &mut shard).unwrap();
    assert_eq!(parts(&shard), all_bytes(&rows[..4]));
}

#[test]
fn an_export_goes_on_after_a_crash() {
    let rows: Vec<Row> = (1..=6).map(account).collect();
    let mut store = Store::default();
    let mut walk = Walk::new(Table::Accounts, word(0), None, fresh("t", 150, 2));
    let mut cursor = Rows { rows: &rows, at: 0 };
    let mut step = WalkStep::Call(walk.open());
    while let WalkStep::Call(call) = step {
        step = walk.on(cursor.call(call)).unwrap();
    }
    store.run(walk.sink.flush(9, false).unwrap());
    store.run(vec![Command::AwaitOldest]);
    export(&rows, Table::Accounts, None, &mut store).unwrap();
    assert_eq!(parts(&store), all_bytes(&rows));
}

/// Takes in what one transaction gives.
fn fill(walk: &mut Walk, rows: &[Row]) -> WalkStep {
    let mut cursor = Rows { rows, at: 0 };
    let mut step = WalkStep::Call(walk.open());
    while let WalkStep::Call(call) = step {
        step = walk.on(cursor.call(call)).unwrap();
    }
    step
}

#[test]
fn a_part_that_is_sent_again_is_the_same_part() {
    let rows: Vec<Row> = (1..=7).map(account).collect();
    let mut store = Store::default();
    let mut walk = Walk::new(Table::Accounts, word(0), None, fresh("t", 150, 2));
    for _ in 0..2 {
        assert_eq!(fill(&mut walk, &rows), WalkStep::PartDone);
        store.run(walk.sink.flush(9, false).unwrap());
    }
    let (sink, done) = Sink::open(&store.get("progress/t.json"), "t", 150, 2, 9).unwrap();
    assert!(!done);
    assert_eq!((sink.part, sink.count, sink.global_off), (1, 2, 208));
    assert_eq!(sink.last_key, Some(rows[1].record_key()));
    assert_eq!(sink.sizes, [208]);
    assert!(sink.buf.is_empty() && sink.idx_frag.is_empty() && sink.pending.is_empty());
    let mut again = Walk::new(Table::Accounts, word(0), None, sink);
    assert_eq!(fill(&mut again, &rows), WalkStep::PartDone);
    assert_eq!(store.in_flight, [("t.00001".to_string(), again.sink.buf.clone())]);
    assert_eq!(again.sink.idx_frag, walk.sink.pending[0].fragment);
}

#[test]
fn part_sizes_sum_up_to_the_bytes_so_far() {
    let rows: Vec<Row> = (1..=7).map(account).collect();
    let mut store = Store::default();
    let mut walk = Walk::new(Table::Accounts, word(0), None, fresh("t", 150, 2));
    let sum = |sink: &Sink| sink.sizes.iter().sum::<u64>();
    loop {
        let step = fill(&mut walk, &rows);
        assert_eq!(sum(&walk.sink) + walk.sink.buf.len() as u64, walk.sink.global_off);
        let done = step == WalkStep::Finish;
        store.run(walk.sink.flush(9, done).unwrap());
        assert!(walk.sink.buf.is_empty());
        assert_eq!(walk.sink.sizes.len(), walk.sink.part as usize);
        assert_eq!(sum(&walk.sink), walk.sink.global_off);
        assert_eq!(walk.sink.pending.len(), if done { 0 } else { 1 });
        if done {
            break;
        }
    }
    assert_eq!(walk.sink.sizes, [208, 208, 208, 104]);
    let (sink, done) = Sink::open(&store.get("progress/t.json"), "t", 150, 2, 9).unwrap();
    assert!(done && sink.pending.is_empty());
    assert_eq!((sink.part, sink.count, sink.global_off), (4, 7, 728));
    assert_eq!(sink.sizes, walk.sink.sizes);
    assert_eq!(sink.last_key, walk.sink.last_key);
}

#[test]
fn codes_that_do_not_hash_to_their_key_are_refused() {
    let mut rows = vec![code(b"abc"), code(b"defg")];
    rows.sort_by_key(|r| r.record_key());
    let mut store = Store::default();
    export(&rows, Table::Codes, None, &mut store).unwrap();
    assert_eq!(parts(&store), all_bytes(&rows));
    let bad = vec![Row::Code { hash: word(1), bytes: b"abc".to_vec() }];
    assert_eq!(
        export(&bad, Table::Codes, None, &mut Store::default()),
        Err(Corrupt { hash: word(1), got: keccak256(b"abc") })
    );
}

#[test]
fn records_have_their_layout() {
    let row = Row::Account(HashedAccount {
        hashed: word(1),
        nonce: 0x0102,
        balance: U256::from_u64(3),
        bytecode_hash: Some(B256::repeat_byte(0xcc)),
    });
    let bytes = row.record_bytes();
    assert_eq!(bytes.len(), 104);
    assert_eq!(bytes[38..40], [1, 2]);
    assert_eq!(bytes[71], 3);
    assert_eq!(bytes[72..], [0xcc; 32]);
    assert_eq!(account(1).record_bytes()[72..], [0; 32]);
    assert_eq!(slot(1, 2).record_bytes().len(), 96);
    assert_eq!(slot(1, 2).record_key().len(), 64);
    let bytes = code(b"abc").record_bytes();
    assert_eq!(bytes[32..], [0, 0, 0, 3, b'a', b'b', b'c']);
    assert_eq!(code(b"abc").head(), keccak256(b"abc"));
}

#[test]
fn a_walk_goes_back_to_its_last_key() {
    let mut sink = fresh("t", 150, 2);
    sink.push(&slot(1, 2).record_bytes(), &slot(1, 2).record_key());
    let mut walk = Walk::new(Table::Slots, word(0), None, sink);
    assert_eq!(walk.open(), Cursor::SeekSub(word(1), word(2)));
    assert_eq!(walk.phase, WalkPhase::ResumeSub(word(1), word(2)));
    assert_eq!(walk.on(Answer::Sub(None)), Ok(WalkStep::Call(Cursor::Seek(word(1)))));
    assert_eq!(walk.on(Answer::Row(None)), Ok(WalkStep::Call(Cursor::NextNoDup)));
    assert_eq!(walk.on(Answer::Row(None)), Ok(WalkStep::Finish));
    let mut codes = Walk::new(Table::Codes, word(0), None, fresh("t", 150, 2));
    assert_eq!(codes.open(), Cursor::First);
    let mut accounts = Walk::new(Table::Accounts, word(5), None, fresh("t", 150, 2));
    assert_eq!(accounts.open(), Cursor::Seek(word(5)));
}

// ------------------------------------------------------------------ finalize

#[test]
fn tables_are_named_and_chosen() {
    assert_eq!(table_name(Table::Slots), "slots");
    assert_eq!(table_named("codes"), Some(Table::Codes));
    assert_eq!(table_named("receipts"), None);
    assert!(wants(None, Table::Slots));
    assert!(wants(Some(Table::Slots), Table::Slots));
    assert!(!wants(Some(Table::Slots), Table::Codes));
    assert!(can_warm(Table::Codes) && can_warm(Table::Slots) && !can_warm(Table::Accounts));
    assert_eq!(warmed_bytes(&slot(1, 1)), 128);
    assert_eq!(warmed_bytes(&code(b"abc")), 3);
    assert!(run_succeeds(Some(Table::Slots), false));
    assert!(!run_succeeds(None, false));
    assert!(run_succeeds(None, true));
}

#[test]
fn state_is_anchored_at_the_finish_checkpoint() {
    let stage = |name: &str, block| (name.to_string(), block);
    assert_eq!(anchor(&vec![stage("Headers", 9), stage("Finish", 7)]), Some(7));
    assert_eq!(anchor(&vec![stage("Finish", 7), stage("Finish", 8)]), Some(8));
    assert_eq!(anchor(&vec![stage("Finish", 0)]), None);
    assert_eq!(anchor(&vec![]), None);
}

fn done(count: u64, part: u32) -> Option<Vec<u8>> {
    let p = Progress { count, ..progress(part, None, true) };
    Some(print_marker(9, &p).unwrap())
}

fn options() -> Options {
    Options { shards: 2, part_bytes: 64, index_every: 4, codes_index_every: 8 }
}

fn member<'a>(j: &'a Json, name: &str) -> &'a Json {
    match j {
        Json::Object(members) => &members.iter().find(|(k, _)| k == name).unwrap().1,
        _ => panic!("no object"),
    }
}

#[test]
fn the_meta_object_sums_up_the_markers() {
    let bodies = vec![done(1, 0), done(2, 1), done(10, 0), done(20, 2), done(5, 1)];
    assert_eq!(
        marker_names(2),
        ["accounts-00", "accounts-01", "slots-00", "slots-01", "codes"]
    );
    let said = finalize(&bodies, 9, &options()).unwrap();
    assert!(matches!(member(&said, "v"), Json::Number(3)));
    assert!(matches!(member(&said, "block"), Json::Number(9)));
    assert!(matches!(member(&said, "accounts"), Json::Number(3)));
    assert!(matches!(member(&said, "slots"), Json::Number(30)));
    assert!(matches!(member(&said, "codes"), Json::Number(5)));
    assert!(matches!(member(&said, "keyed"), Json::Text(t) if t == "hashed"));
    assert!(matches!(member(&said, "part_bytes"), Json::Number(64)));
    assert!(matches!(member(member(&said, "record"), "slots"), Json::Number(96)));
    assert!(matches!(member(member(&said, "sharded"), "accounts"), Json::Number(2)));
    match member(member(&said, "sizes"), "slots-01") {
        Json::List(sizes) => {
            assert!(matches!(sizes[..], [Json::Number(480), Json::Number(481)]))
        }
        other => panic!("{other:?}"),
    }
}

#[test]
fn meta_waits_for_every_table() {
    let whole = || vec![done(1, 0), done(2, 1), done(10, 0), done(20, 2), done(5, 1)];
    let mut bodies = whole();
    bodies[3] = None;
    assert!(matches!(
        finalize(&bodies, 9, &options()),
        Err(NotFinal::Table { at: 3, why: Incomplete::NoMarker })
    ));
    let mut bodies = whole();
    bodies[4] = Some(print_marker(9, &progress(0, None, false)).unwrap());
    assert!(matches!(
        finalize(&bodies, 9, &options()),
        Err(NotFinal::Table { at: 4, why: Incomplete::Says(Lacks::Done) })
    ));
    assert!(matches!(
        finalize(&whole(), 10, &options()),
        Err(NotFinal::Table {
            at: 0,
            why: Incomplete::Says(Lacks::Block { marker: Some(9), database: 10 })
        })
    ));
    let mut bodies = whole();
    bodies[0] = done(u64::MAX, 0);
    assert!(matches!(finalize(&bodies, 9, &options()), Err(NotFinal::Overflow { .. })));
    assert!(matches!(read_marker(&Some(vec![b'x']), 9), Err(Incomplete::Json(_))));
    assert_eq!(
        complete_from(&values(9, 3, None, vec![Some(1)]), 9).unwrap_err(),
        Lacks::Sizes { part: Some(3), sizes: 1 }
    );
    assert_eq!(complete_from(&values(9, 1, None, vec![Some(1)]), 9).unwrap().count, 3);
    let empty = || Complete { count: 0, sizes: vec![] };
    let accounts = vec![empty(), empty()];
    let slots = vec![empty(), empty()];
    let said = meta(1, &accounts, &slots, &empty(), &options());
    assert!(matches!(member(&said, "codes_index_every"), Json::Number(8)));
}
