//! What the published records promise a reader: which change they tell, of which
//! block, in terms of what the chain was executed to.

use vstd::prelude::*;

use crate::delta;
use crate::delta::Stats;
use crate::emit;
use crate::emit::{BlockHeader, ChainData, Segment};
use crate::hash;
use crate::json::{Json, JsonView};
use crate::primitives::U256;
use crate::readback;
use crate::text;

verus! {

// ------------------------------------------------------------------- members

/// The object `j` has a member `name`, and it is `v`.
pub open spec fn has_member(j: JsonView, name: Seq<char>, v: JsonView) -> bool {
    &&& j is Object
    &&& exists|i: int| 0 <= i < j->Object_0.len() && #[trigger] j->Object_0[i] == (name, v)
    &&& forall|i: int|
        0 <= i < j->Object_0.len() && (#[trigger] j->Object_0[i]).0 == name ==> j->Object_0[i].1
            == v
}

/// The object `j` has no member `name`.
pub open spec fn lacks_member(j: JsonView, name: Seq<char>) -> bool {
    &&& j is Object
    &&& forall|i: int| 0 <= i < j->Object_0.len() ==> (#[trigger] j->Object_0[i]).0 != name
}

/// An object has one value for a name.
pub proof fn lemma_one_member(j: JsonView, name: Seq<char>, v: JsonView, w: JsonView)
    requires
        has_member(j, name, v),
        has_member(j, name, w),
    ensures
        v == w,
        !lacks_member(j, name),
{
    let i = choose|i: int| 0 <= i < j->Object_0.len() && #[trigger] j->Object_0[i] == (name, v);
    assert(j->Object_0[i].0 == name);
}

/// The names of a record's members differ.
pub proof fn lemma_names()
    ensures
        "v"@.len() == 1,
        "ts"@.len() == 2,
        "src"@.len() == 3,
        "key"@.len() == 3,
        "pre"@.len() == 3,
        "kind"@.len() == 4,
        "hash"@.len() == 4,
        "addr"@.len() == 4,
        "code"@.len() == 4,
        "post"@.len() == 4,
        "block"@.len() == 5,
        "first"@.len() == 5,
        "delta"@.len() == 5,
        "slots"@.len() == 5,
        "nonce"@.len() == 5,
        "parent"@.len() == 6,
        "header"@.len() == 6,
        "exists"@.len() == 6,
        "balance"@.len() == 7,
        "basefee"@.len() == 7,
        "storage"@.len() == 7,
        "accounts"@.len() == 8,
        "emit_unix"@.len() == 9,
        "unmodeled"@.len() == 9,
        "gas_limit"@.len() == 9,
        "code_hash"@.len() == 9,
        "prevrandao"@.len() == 10,
        "beneficiary"@.len() == 11,
        "excess_blob_gas"@.len() == 15,
        "unmodeled_addrs"@.len() == 15,
        "key"@[0] == 'k',
        "pre"@[0] == 'p',
        "kind"@[0] == 'k',
        "hash"@[0] == 'h',
        "code"@[0] == 'c',
        "block"@[0] == 'b',
        "first"@[0] == 'f',
        "delta"@[0] == 'd',
        "parent"@[0] == 'p',
        "header"@[0] == 'h',
        "emit_unix"@[0] == 'e',
        "unmodeled"@[0] == 'u',
{
    reveal_strlit("v");
    reveal_strlit("ts");
    reveal_strlit("src");
    reveal_strlit("key");
    reveal_strlit("pre");
    reveal_strlit("kind");
    reveal_strlit("hash");
    reveal_strlit("addr");
    reveal_strlit("code");
    reveal_strlit("post");
    reveal_strlit("block");
    reveal_strlit("first");
    reveal_strlit("delta");
    reveal_strlit("slots");
    reveal_strlit("nonce");
    reveal_strlit("parent");
    reveal_strlit("header");
    reveal_strlit("exists");
    reveal_strlit("balance");
    reveal_strlit("basefee");
    reveal_strlit("storage");
    reveal_strlit("accounts");
    reveal_strlit("emit_unix");
    reveal_strlit("unmodeled");
    reveal_strlit("gas_limit");
    reveal_strlit("code_hash");
    reveal_strlit("prevrandao");
    reveal_strlit("beneficiary");
    reveal_strlit("excess_blob_gas");
    reveal_strlit("unmodeled_addrs");
}

// ------------------------------------------------------------------- headers

/// What both kinds of record say of a header, each field under its own name.
pub open spec fn tells_header(j: JsonView, h: BlockHeader) -> bool {
    &&& has_member(j, "gas_limit"@, JsonView::Number(h.gas_limit))
    &&& h.base_fee_per_gas matches Some(fee) ==> has_member(
        j,
        "basefee"@,
        JsonView::Number(fee),
    )
    &&& h.base_fee_per_gas is None ==> has_member(j, "basefee"@, JsonView::Number(0))
    &&& has_member(j, "prevrandao"@, JsonView::Text(hash::b256_text(h.mix_hash)))
    &&& has_member(j, "beneficiary"@, JsonView::Text(hash::address_text(h.beneficiary)))
}

/// What both kinds of record say of the block.
pub open spec fn tells_block(j: JsonView, h: BlockHeader, emit_unix: u64) -> bool {
    &&& has_member(j, "v"@, JsonView::Number(1))
    &&& has_member(j, "src"@, JsonView::Text("exex"@))
    &&& has_member(j, "block"@, JsonView::Number(h.number))
    &&& has_member(j, "hash"@, JsonView::Text(hash::b256_text(h.hash)))
    &&& has_member(j, "parent"@, JsonView::Text(hash::b256_text(h.parent_hash)))
    &&& has_member(j, "ts"@, JsonView::Number(h.timestamp))
    &&& has_member(j, "emit_unix"@, JsonView::Number(emit_unix))
}

/// The record of a block that joined the chain: the block, every field of its
/// header, and its delta.
pub open spec fn tells_commit(
    j: JsonView,
    h: BlockHeader,
    emit_unix: u64,
    changes: JsonView,
) -> bool {
    &&& tells_block(j, h, emit_unix)
    &&& has_member(j, "kind"@, JsonView::Text("commit"@))
    &&& has_member(j, "delta"@, changes)
    &&& exists|header: JsonView|
        {
            &&& #[trigger] has_member(j, "header"@, header)
            &&& tells_header(header, h)
            &&& h.excess_blob_gas matches Some(n) ==> has_member(
                header,
                "excess_blob_gas"@,
                JsonView::Number(n),
            )
            &&& h.excess_blob_gas is None ==> has_member(
                header,
                "excess_blob_gas"@,
                JsonView::Null,
            )
        }
}

/// A member whose name no other member has.
pub proof fn lemma_member_at(j: JsonView, i: int)
    requires
        j is Object,
        0 <= i < j->Object_0.len(),
        forall|k: int|
            0 <= k < j->Object_0.len() && k != i ==> (#[trigger] j->Object_0[k]).0
                != j->Object_0[i].0,
    ensures
        has_member(j, j->Object_0[i].0, j->Object_0[i].1),
{
    assert(j->Object_0[i] == (j->Object_0[i].0, j->Object_0[i].1));
}

/// The record of a block tells the block, its header and its delta.
pub proof fn lemma_commit_told(h: BlockHeader, emit_unix: u64, changes: JsonView)
    ensures
        tells_commit(emit::commit_record_view(h, emit_unix, changes), h, emit_unix, changes),
{
    lemma_names();
    let j = emit::commit_record_view(h, emit_unix, changes);
    let ms = j->Object_0;
    assert(ms.len() == 12);
    lemma_member_at(j, 0);
    lemma_member_at(j, 1);
    lemma_member_at(j, 2);
    lemma_member_at(j, 3);
    lemma_member_at(j, 4);
    lemma_member_at(j, 5);
    lemma_member_at(j, 6);
    lemma_member_at(j, 7);
    lemma_member_at(j, 8);
    lemma_member_at(j, 9);
    let header = ms[8].1;
    assert(header->Object_0.len() == 5);
    lemma_member_at(header, 0);
    lemma_member_at(header, 1);
    lemma_member_at(header, 2);
    lemma_member_at(header, 3);
    lemma_member_at(header, 4);
    assert(has_member(j, "header"@, header));
}

/// Every field of the header can be read back from the record of a block, and so
/// can the delta.
pub proof fn lemma_commit_record(h: BlockHeader, emit_unix: u64, changes: Json, r: Json)
    requires
        call_ensures(emit::commit_record, (&h, emit_unix, changes), r),
    ensures
        tells_commit(r@, h, emit_unix, changes@),
{
    lemma_commit_told(h, emit_unix, changes@);
}

/// Headers that differ have records that differ; a header without a base fee is
/// told as one with a fee of zero.
pub proof fn lemma_headers_told_apart(
    a: BlockHeader,
    b: BlockHeader,
    s: u64,
    t: u64,
    c: JsonView,
    d: JsonView,
    j: JsonView,
)
    requires
        tells_commit(j, a, s, c),
        tells_commit(j, b, t, d),
        a.base_fee_per_gas != Some(0u64),
        b.base_fee_per_gas != Some(0u64),
    ensures
        a == b,
        s == t,
        c == d,
{
    let x = choose|x: JsonView|
        {
            &&& #[trigger] has_member(j, "header"@, x)
            &&& tells_header(x, a)
            &&& a.excess_blob_gas matches Some(n) ==> has_member(
                x,
                "excess_blob_gas"@,
                JsonView::Number(n),
            )
            &&& a.excess_blob_gas is None ==> has_member(x, "excess_blob_gas"@, JsonView::Null)
        };
    let y = choose|y: JsonView|
        {
            &&& #[trigger] has_member(j, "header"@, y)
            &&& tells_header(y, b)
            &&& b.excess_blob_gas matches Some(n) ==> has_member(
                y,
                "excess_blob_gas"@,
                JsonView::Number(n),
            )
            &&& b.excess_blob_gas is None ==> has_member(y, "excess_blob_gas"@, JsonView::Null)
        };
    lemma_one_member(j, "header"@, x, y);
    lemma_one_member(j, "delta"@, c, d);
    lemma_one_member(j, "block"@, JsonView::Number(a.number), JsonView::Number(b.number));
    lemma_one_member(j, "ts"@, JsonView::Number(a.timestamp), JsonView::Number(b.timestamp));
    lemma_one_member(j, "emit_unix"@, JsonView::Number(s), JsonView::Number(t));
    lemma_one_member(
        j,
        "hash"@,
        JsonView::Text(hash::b256_text(a.hash)),
        JsonView::Text(hash::b256_text(b.hash)),
    );
    lemma_one_member(
        j,
        "parent"@,
        JsonView::Text(hash::b256_text(a.parent_hash)),
        JsonView::Text(hash::b256_text(b.parent_hash)),
    );
    lemma_one_member(
        x,
        "gas_limit"@,
        JsonView::Number(a.gas_limit),
        JsonView::Number(b.gas_limit),
    );
    let f = match a.base_fee_per_gas {
        Some(n) => n,
        None => 0,
    };
    let g = match b.base_fee_per_gas {
        Some(n) => n,
        None => 0,
    };
    lemma_one_member(x, "basefee"@, JsonView::Number(f), JsonView::Number(g));
    lemma_one_member(
        x,
        "prevrandao"@,
        JsonView::Text(hash::b256_text(a.mix_hash)),
        JsonView::Text(hash::b256_text(b.mix_hash)),
    );
    lemma_one_member(
        x,
        "beneficiary"@,
        JsonView::Text(hash::address_text(a.beneficiary)),
        JsonView::Text(hash::address_text(b.beneficiary)),
    );
    let p = match a.excess_blob_gas {
        Some(n) => JsonView::Number(n),
        None => JsonView::Null,
    };
    let q = match b.excess_blob_gas {
        Some(n) => JsonView::Number(n),
        None => JsonView::Null,
    };
    lemma_one_member(x, "excess_blob_gas"@, p, q);
    let zero = U256 { hi: 0, lo: 0 };
    readback::lemma_texts_tell_apart(a.hash, b.hash, a.beneficiary, b.beneficiary, zero, zero);
    readback::lemma_texts_tell_apart(
        a.parent_hash,
        b.parent_hash,
        a.beneficiary,
        b.beneficiary,
        zero,
        zero,
    );
    readback::lemma_texts_tell_apart(
        a.mix_hash,
        b.mix_hash,
        a.beneficiary,
        b.beneficiary,
        zero,
        zero,
    );
}

/// The record of blocks that left the chain: the first and the last of them, the
/// header of the last, and no change.
pub open spec fn tells_revert(
    j: JsonView,
    first: u64,
    tip: BlockHeader,
    emit_unix: u64,
) -> bool {
    &&& tells_block(j, tip, emit_unix)
    &&& has_member(j, "kind"@, JsonView::Text("revert"@))
    &&& has_member(j, "first"@, JsonView::Number(first))
    &&& exists|header: JsonView|
        #[trigger] has_member(j, "header"@, header) && tells_header(header, tip)
    &&& exists|changes: JsonView|
        {
            &&& #[trigger] has_member(j, "delta"@, changes)
            &&& has_member(changes, "accounts"@, JsonView::List(Seq::empty()))
            &&& has_member(changes, "storage"@, JsonView::List(Seq::empty()))
            &&& has_member(changes, "code"@, JsonView::List(Seq::empty()))
        }
}

proof fn lemma_revert_told(first: u64, tip: BlockHeader, emit_unix: u64)
    ensures
        tells_revert(emit::revert_record_view(first, tip, emit_unix), first, tip, emit_unix),
{
    lemma_names();
    let j = emit::revert_record_view(first, tip, emit_unix);
    let ms = j->Object_0;
    assert(ms.len() == 11);
    lemma_member_at(j, 0);
    lemma_member_at(j, 1);
    lemma_member_at(j, 2);
    lemma_member_at(j, 3);
    lemma_member_at(j, 4);
    lemma_member_at(j, 5);
    lemma_member_at(j, 6);
    lemma_member_at(j, 7);
    lemma_member_at(j, 8);
    lemma_member_at(j, 9);
    lemma_member_at(j, 10);
    let header = ms[9].1;
    assert(header->Object_0.len() == 4);
    lemma_member_at(header, 0);
    lemma_member_at(header, 1);
    lemma_member_at(header, 2);
    lemma_member_at(header, 3);
    let changes = ms[10].1;
    assert(changes->Object_0.len() == 3);
    lemma_member_at(changes, 0);
    lemma_member_at(changes, 1);
    lemma_member_at(changes, 2);
    assert(has_member(j, "header"@, header));
    assert(has_member(j, "delta"@, changes));
}

/// A revert's record names the first and the last block that left, and stands
/// under the name of the first.
pub proof fn lemma_revert_record(first: u64, tip: BlockHeader, emit_unix: u64, r: Json)
    requires
        call_ensures(emit::revert_record, (first, &tip, emit_unix), r),
    ensures
        tells_revert(r@, first, tip, emit_unix),
{
    lemma_revert_told(first, tip, emit_unix);
}

/// A name says the number of a block: in twelve digits or, where it needs more,
/// in as many as it needs.
pub open spec fn names_block(name: Seq<char>, n: u64) -> bool {
    &&& name.len() >= 29
    &&& name.take(12) == "cvsd~v1~blk~"@
    &&& name.skip(name.len() - 5) == ".json"@
    &&& readback::decimal_read(name.subrange(12, name.len() - 5)) == n
    &&& forall|i: int| 12 <= i < name.len() - 5 ==> 0x30 <= #[trigger] name[i] as u32 <= 0x39
    &&& name.len() > 29 ==> name[12] != '0'
}

/// The name of a block's segment says the block's number.
pub proof fn lemma_named(n: u64)
    ensures
        names_block(emit::segment_name_of(n), n),
{
    reveal_strlit("cvsd~v1~blk~");
    reveal_strlit(".json");
    let d = text::padded_digits(n as nat, 12);
    let name = emit::segment_name_of(n);
    readback::lemma_padded_says(n as nat, 12);
    readback::lemma_decimal_says(n as nat);
    assert(name.take(12) =~= "cvsd~v1~blk~"@);
    assert(name.skip(name.len() - 5) =~= ".json"@);
    assert(name.subrange(12, name.len() - 5) =~= d);
    assert forall|i: int| 12 <= i < name.len() - 5 implies 0x30 <= #[trigger] name[i] as u32
        <= 0x39 by {
        assert(name[i] == d[i - 12]);
    }
    assert(name[12] == d[0]);
}

/// A segment's name says the number of its block, so that no two blocks share a
/// name.
pub proof fn lemma_segment_name(n: u64, r: String)
    requires
        call_ensures(emit::segment_name, (n,), r),
    ensures
        names_block(r@, n),
{
    lemma_named(n);
}

/// A staged file has the name that it will have, with a mark in front.
pub proof fn lemma_staging_name(name: &str, r: String)
    requires
        call_ensures(emit::staging_name, (name,), r),
    ensures
        r@.len() == 5 + name@.len(),
        r@.take(5) == ".tmp-"@,
        r@.skip(5) == name@,
{
    reveal_strlit(".tmp-");
    assert(r@.take(5) =~= ".tmp-"@);
    assert(r@.skip(5) =~= name@);
}

/// The marker of a reorg is of the chain that left: its first block, its last.
pub proof fn lemma_write_revert(chain: ChainData, emit_unix: u64, r: Segment)
    requires
        chain.well_formed(),
        call_ensures(emit::write_revert, (&chain, emit_unix), r),
    ensures
        names_block(r.name@, chain.blocks@[0].header.number),
        tells_revert(
            r.record@,
            chain.blocks@[0].header.number,
            chain.blocks@[chain.blocks@.len() - 1].header,
            emit_unix,
        ),
        r.stats == (Stats { blocks: 0, accounts: 0, slots: 0, code: 0, bytes: 0 }),
{
    lemma_named(chain.blocks@[0].header.number);
    lemma_revert_told(
        chain.blocks@[0].header.number,
        chain.blocks@[chain.blocks@.len() - 1].header,
        emit_unix,
    );
}

} // verus!
