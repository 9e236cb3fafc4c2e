//! The barrier around read transactions of a database whose device is
//! rewritten underneath its mounted filesystem.
//!
//! Every read transaction holds the lock file shared; whoever rewrites the
//! device holds it exclusively, and leaves the ranges of the device that it
//! touched in a sidecar. The next transaction drops what is cached of them.
//! This module reads the sidecar and decides what is to be dropped.

use vstd::prelude::*;

use crate::metrics;
use crate::metrics::{find_first, split_lines, take_word, trim, trim_start};
use crate::primitives;
use crate::primitives::read_le8;
use crate::text;
use crate::text::{chars_of, hex_value_of};

verus! {

/// The size of a page of memory.
pub const PAGE: u64 = 4096;

/// The barrier of one database.
#[derive(Debug)]
pub struct Barrier {
    /// The lock file.
    pub lock_path: String,
    /// The sidecar: the lock file's name with `.ranges` behind it.
    pub ranges_path: String,
    /// The database file.
    pub data_path: String,
    /// The last batch whose ranges were dropped.
    pub last_seq: u64,
}

/// The database file in this directory.
pub open spec fn data_file(dir: Seq<char>) -> Seq<char> {
    if dir.len() == 0 || dir.last() == '/' {
        dir + "mdbx.dat"@
    } else {
        dir + "/"@ + "mdbx.dat"@
    }
}

/// The barrier of the database in `env_dir`, where a lock file is configured.
pub fn get(lock: &Option<String>, env_dir: &str) -> (r: Option<Barrier>)
    ensures
        match (*lock, r) {
            (Some(l), Some(b)) => {
                &&& b.lock_path@ == metrics::trimmed(l@)
                &&& b.ranges_path@ == metrics::trimmed(l@) + ".ranges"@
                &&& b.data_path@ == data_file(env_dir@)
                &&& b.last_seq == 0
            },
            (None, None) => true,
            _ => false,
        },
{
    match lock {
        None => None,
        Some(l) => {
            let lock_path: String = trim(l.as_str()).to_owned();
            let mut ranges_path: String = lock_path.clone();
            ranges_path.append(".ranges");
            let mut data_path: String = env_dir.to_owned();
            let n: usize = env_dir.unicode_len();
            if n > 0 && env_dir.get_char(n - 1) != '/' {
                data_path.append("/");
            }
            data_path.append("mdbx.dat");
            Some(Barrier { lock_path, ranges_path, data_path, last_seq: 0 })
        },
    }
}

// ------------------------------------------------------------------ sidecar

/// What a sidecar calls for.
#[derive(Debug)]
pub enum Pending {
    /// Nothing: the batch is no new one.
    Nothing,
    /// Everything is to be dropped, for the sidecar cannot be read; the batch,
    /// where that much can be and it is a new one.
    Whole { seq: Option<u64> },
    /// These ranges of the device are to be dropped, each an offset and a
    /// length.
    Ranges { seq: u64, ranges: Vec<(u64, u64)> },
}

/// The batch that a sidecar names.
pub open spec fn seq_of(b: Seq<u8>) -> u64 {
    primitives::le_value(b.take(8)) as u64
}

/// The `i`th range that a sidecar names.
pub open spec fn range_of(b: Seq<u8>, i: int) -> (u64, u64) {
    (
        primitives::le_value(b.subrange(8 + 16 * i, 16 + 16 * i)) as u64,
        primitives::le_value(b.subrange(16 + 16 * i, 24 + 16 * i)) as u64,
    )
}

/// The ranges that a sidecar names.
pub open spec fn ranges_of(b: Seq<u8>) -> Seq<(u64, u64)> {
    Seq::new(((b.len() - 8) / 16) as nat, |i: int| range_of(b, i))
}

/// The sidecar is whole: the batch, then ranges.
pub open spec fn whole(b: Seq<u8>) -> bool {
    b.len() >= 8 && (b.len() - 8) % 16 == 0
}

/// The batch that a sidecar names, where it names one that is new after
/// `last_seq`.
pub open spec fn new_seq(b: Seq<u8>, last_seq: u64) -> Option<u64> {
    if b.len() >= 8 && seq_of(b) > last_seq {
        Some(seq_of(b))
    } else {
        None
    }
}

/// `p` is what a sidecar calls for, when `last_seq` was the last batch: all of
/// the file where the sidecar is not whole, whatever batch it names, and where
/// it is whole the ranges of a new batch.
pub open spec fn calls_for(b: Seq<u8>, last_seq: u64, p: Pending) -> bool {
    match p {
        Pending::Nothing => whole(b) && seq_of(b) <= last_seq,
        Pending::Whole { seq } => !whole(b) && seq == new_seq(b, last_seq),
        Pending::Ranges { seq, ranges } => {
            &&& whole(b)
            &&& seq == seq_of(b)
            &&& seq > last_seq
            &&& ranges@ == ranges_of(b)
        },
    }
}

/// What a sidecar calls for, when `last_seq` was the last batch.
pub fn read_sidecar(b: &[u8], last_seq: u64) -> (r: Pending)
    ensures
        calls_for(b@, last_seq, r),
{
    let n: usize = b.len();
    if n < 8 {
        return Pending::Whole { seq: None };
    }
    assert(b@.subrange(0, 8) =~= b@.take(8));
    let seq: u64 = read_le8(b, 0);
    if (n - 8) % 16 != 0 {
        return Pending::Whole {
            seq: if seq > last_seq {
                Some(seq)
            } else {
                None
            },
        };
    }
    if seq <= last_seq {
        return Pending::Nothing;
    }
    let mut ranges: Vec<(u64, u64)> = Vec::new();
    let mut at: usize = 8;
    let ghost mut i: int = 0;
    while at < n
        invariant
            8 <= at <= n,
            n == b@.len(),
            (n - 8) % 16 == 0,
            i >= 0,
            at == 8 + 16 * i,
            ranges@ == ranges_of(b@).take(i),
        decreases n - at,
    {
        assert(n - at >= 16);
        let off: u64 = read_le8(b, at);
        let len: u64 = read_le8(b, at + 8);
        ranges.push((off, len));
        proof {
            assert(ranges_of(b@)[i] == (off, len));
            assert(ranges@ =~= ranges_of(b@).take(i + 1));
            i = i + 1;
        }
        at = at + 16;
    }
    assert(ranges@ =~= ranges_of(b@));
    Pending::Ranges { seq, ranges }
}

// ------------------------------------------------------------------ extents

/// An extent of the database file: where it stands in the file, where on the
/// device, and how long it is.
pub type Extent = (u64, u64, u64);

/// The extent ends within what a device can hold.
pub open spec fn sound(x: Extent) -> bool {
    x.0 + x.2 <= u64::MAX && x.1 + x.2 <= u64::MAX
}

/// What of the extent lies in the range of the device, as a range of the
/// file.
pub open spec fn overlap(x: Extent, dev_off: u64, len: u64) -> Option<(u64, u64)> {
    let dev_end = dev_off + len;
    let end = x.1 + x.2;
    if dev_end <= x.1 || dev_off >= end {
        None
    } else {
        let s = if dev_off > x.1 {
            dev_off as int
        } else {
            x.1 as int
        };
        let e = if dev_end < end {
            dev_end
        } else {
            end
        };
        Some(((x.0 + (s - x.1)) as u64, (e - s) as u64))
    }
}

/// What the extents have in the range of the device, as ranges of the file.
pub open spec fn file_ranges(extents: Seq<Extent>, dev_off: u64, len: u64) -> Seq<(u64, u64)>
    decreases extents.len(),
{
    if extents.len() == 0 {
        Seq::empty()
    } else {
        let earlier = file_ranges(extents.drop_last(), dev_off, len);
        match overlap(extents.last(), dev_off, len) {
            Some(r) => earlier.push(r),
            None => earlier,
        }
    }
}

/// All extents are sound.
pub open spec fn all_sound(extents: Seq<Extent>) -> bool {
    forall|i: int| 0 <= i < extents.len() ==> sound(#[trigger] extents[i])
}

/// The ranges of the file that lie in a range of the device.
pub fn device_to_file(extents: &[Extent], dev_off: u64, len: u64) -> (r: Vec<(u64, u64)>)
    requires
        dev_off + len <= u64::MAX,
        all_sound(extents@),
    ensures
        r@ == file_ranges(extents@, dev_off, len),
{
    let mut out: Vec<(u64, u64)> = Vec::new();
    let dev_end: u64 = dev_off + len;
    let mut i: usize = 0;
    while i < extents.len()
        invariant
            i <= extents@.len(),
            dev_end == dev_off + len,
            all_sound(extents@),
            out@ == file_ranges(extents@.take(i as int), dev_off, len),
        decreases extents@.len() - i,
    {
        let (logical, physical, elen): Extent = extents[i];
        assert(sound(extents@[i as int]));
        assert(extents@.take(i + 1).drop_last() =~= extents@.take(i as int));
        let pend: u64 = physical + elen;
        if !(dev_end <= physical || dev_off >= pend) {
            let s: u64 = if dev_off > physical {
                dev_off
            } else {
                physical
            };
            let e: u64 = if dev_end < pend {
                dev_end
            } else {
                pend
            };
            out.push((logical + (s - physical), e - s));
        }
        i = i + 1;
    }
    assert(extents@.take(i as int) =~= extents@);
    out
}

/// The byte at `file_off` of the file stands at `dev` on the device, by this
/// extent.
pub open spec fn maps(x: Extent, file_off: int, dev: int) -> bool {
    &&& x.0 <= file_off < x.0 + x.2
    &&& dev == x.1 + (file_off - x.0)
}

/// `file_off` lies in one of these ranges.
pub open spec fn covered(ranges: Seq<(u64, u64)>, file_off: int) -> bool {
    exists|i: int|
        0 <= i < ranges.len() && (#[trigger] ranges[i]).0 <= file_off < ranges[i].0 + ranges[i].1
}

/// Every byte of the file that stands in a range of the device is among what
/// is dropped for that range, and nothing else is: no page that was rewritten
/// stays behind.
pub proof fn lemma_rewritten_is_covered(
    extents: Seq<Extent>,
    dev_off: u64,
    len: u64,
    file_off: int,
)
    requires
        dev_off + len <= u64::MAX,
        all_sound(extents),
    ensures
        covered(file_ranges(extents, dev_off, len), file_off) <==> exists|k: int, dev: int|
            {
                &&& 0 <= k < extents.len()
                &&& #[trigger] maps(extents[k], file_off, dev)
                &&& dev_off <= dev < dev_off + len
            },
    decreases extents.len(),
{
    if extents.len() > 0 {
        let p = extents.drop_last();
        let n = extents.len() - 1;
        let x = extents[n];
        let all = file_ranges(extents, dev_off, len);
        let earlier = file_ranges(p, dev_off, len);
        assert(sound(extents[n]));
        assert forall|i: int| 0 <= i < p.len() implies sound(#[trigger] p[i]) by {
            assert(sound(extents[i]));
        }
        lemma_rewritten_is_covered(p, dev_off, len, file_off);
        if covered(all, file_off) {
            let i = choose|i: int|
                0 <= i < all.len() && (#[trigger] all[i]).0 <= file_off < all[i].0 + all[i].1;
            if i < earlier.len() {
                assert(earlier[i] == all[i]);
                assert(covered(earlier, file_off));
                let (k, dev) = choose|k: int, dev: int|
                    {
                        &&& 0 <= k < p.len()
                        &&& #[trigger] maps(p[k], file_off, dev)
                        &&& dev_off <= dev < dev_off + len
                    };
                assert(maps(extents[k], file_off, dev));
            } else {
                assert(maps(extents[n], file_off, x.1 + (file_off - x.0)));
            }
        }
        if exists|k: int, dev: int|
            {
                &&& 0 <= k < extents.len()
                &&& #[trigger] maps(extents[k], file_off, dev)
                &&& dev_off <= dev < dev_off + len
            } {
            let (k, dev) = choose|k: int, dev: int|
                {
                    &&& 0 <= k < extents.len()
                    &&& #[trigger] maps(extents[k], file_off, dev)
                    &&& dev_off <= dev < dev_off + len
                };
            if k < n {
                assert(maps(p[k], file_off, dev));
                assert(covered(earlier, file_off));
                let i = choose|i: int|
                    0 <= i < earlier.len() && (#[trigger] earlier[i]).0 <= file_off
                        < earlier[i].0 + earlier[i].1;
                assert(all[i] == earlier[i]);
            } else {
                assert(overlap(x, dev_off, len) is Some);
                assert(all[earlier.len() as int] == overlap(x, dev_off, len)->Some_0);
            }
        }
    } else {
        assert(!covered(file_ranges(extents, dev_off, len), file_off));
    }
}

/// The device's ranges are ones that a device can hold.
pub open spec fn all_fit(ranges: Seq<(u64, u64)>) -> bool {
    forall|i: int| 0 <= i < ranges.len() ==> (#[trigger] ranges[i]).0 + ranges[i].1 <= u64::MAX
}

/// What the extents have in these ranges of the device.
pub open spec fn all_file_ranges(extents: Seq<Extent>, ranges: Seq<(u64, u64)>) -> Seq<(u64, u64)>
    decreases ranges.len(),
{
    if ranges.len() == 0 {
        Seq::empty()
    } else {
        all_file_ranges(extents, ranges.drop_last()) + file_ranges(
            extents,
            ranges.last().0,
            ranges.last().1,
        )
    }
}

/// The extents can be used: they could be read, there is one, and they and the
/// ranges fit.
pub open spec fn usable(extents: Option<Vec<Extent>>, ranges: Seq<(u64, u64)>) -> bool {
    extents matches Some(x) && x@.len() > 0 && all_sound(x@) && all_fit(ranges)
}

fn can_use(extents: &Vec<Extent>, ranges: &Vec<(u64, u64)>) -> (r: bool)
    ensures
        r == (extents@.len() > 0 && all_sound(extents@) && all_fit(ranges@)),
{
    if extents.len() == 0 {
        return false;
    }
    let mut i: usize = 0;
    while i < extents.len()
        invariant
            i <= extents@.len(),
            forall|k: int| 0 <= k < i ==> sound(#[trigger] extents@[k]),
        decreases extents@.len() - i,
    {
        let x: Extent = extents[i];
        if x.2 > u64::MAX - x.0 || x.2 > u64::MAX - x.1 {
            assert(!sound(extents@[i as int]));
            return false;
        }
        i = i + 1;
    }
    let mut j: usize = 0;
    while j < ranges.len()
        invariant
            j <= ranges@.len(),
            forall|k: int|
                0 <= k < j ==> (#[trigger] ranges@[k]).0 + ranges@[k].1 <= u64::MAX,
        decreases ranges@.len() - j,
    {
        if ranges[j].1 > u64::MAX - ranges[j].0 {
            assert(ranges@[j as int].0 + ranges@[j as int].1 > u64::MAX);
            return false;
        }
        j = j + 1;
    }
    true
}

/// The ranges of the file that are dropped for these ranges of the device, when
/// so much of the file is mapped.
pub open spec fn dropped_for(
    device_ranges: Seq<(u64, u64)>,
    extents: Option<Vec<Extent>>,
    map_len: u64,
) -> Seq<(u64, u64)> {
    if usable(extents, device_ranges) {
        all_file_ranges(extents->Some_0@, device_ranges)
    } else {
        seq![(0u64, map_len)]
    }
}

/// All of the file: as much as is mapped, or where the mapping cannot be found,
/// as much as there is.
pub open spec fn all_of(map_len: Option<u64>, file_len: u64) -> Seq<(u64, u64)> {
    match map_len {
        Some(n) => seq![(0u64, n)],
        None => seq![(0u64, file_len)],
    }
}

/// The ranges of the file that are dropped for what a sidecar calls for.
pub open spec fn dropped_in(
    pending: Pending,
    extents: Option<Vec<Extent>>,
    map_len: Option<u64>,
    file_len: u64,
) -> Seq<(u64, u64)> {
    match pending {
        Pending::Nothing => Seq::empty(),
        Pending::Whole { .. } => all_of(map_len, file_len),
        Pending::Ranges { ranges, .. } => match map_len {
            Some(n) => dropped_for(ranges@, extents, n),
            None => all_of(map_len, file_len),
        },
    }
}

/// The batch that is over once what a sidecar calls for was dropped.
pub open spec fn batch_of(pending: Pending) -> Option<u64> {
    match pending {
        Pending::Nothing => None,
        Pending::Whole { seq } => seq,
        Pending::Ranges { seq, .. } => Some(seq),
    }
}

impl Barrier {
    /// What the sidecar calls for.
    pub fn consume_ranges(&self, sidecar: &[u8]) -> (r: Pending)
        ensures
            calls_for(sidecar@, self.last_seq, r),
    {
        read_sidecar(sidecar, self.last_seq)
    }

    /// Ends a batch once what its sidecar calls for was dropped.
    pub fn consumed(&mut self, pending: &Pending)
        requires
            batch_of(*pending) matches Some(seq) ==> seq > old(self).last_seq,
        ensures
            *final(self) == (Barrier {
                last_seq: match batch_of(*pending) {
                    Some(seq) => seq,
                    None => old(self).last_seq,
                },
                ..*old(self)
            }),
    {
        match pending {
            Pending::Nothing => {},
            Pending::Whole { seq } => {
                if let Some(seq) = seq {
                    self.last_seq = *seq;
                }
            },
            Pending::Ranges { seq, .. } => {
                self.last_seq = *seq;
            },
        }
    }

    /// The ranges of the file that are to be dropped for what a sidecar calls
    /// for.
    pub fn drops(
        &self,
        pending: &Pending,
        extents: &Option<Vec<Extent>>,
        map_len: Option<u64>,
        file_len: u64,
    ) -> (r: Vec<(u64, u64)>)
        ensures
            r@ == dropped_in(*pending, *extents, map_len, file_len),
    {
        match pending {
            Pending::Nothing => {
                let none: Vec<(u64, u64)> = Vec::new();
                assert(none@ =~= Seq::empty());
                none
            },
            Pending::Whole { .. } => whole_file(map_len, file_len),
            Pending::Ranges { ranges, .. } => self.invalidate_device_ranges(
                ranges,
                extents,
                map_len,
                file_len,
            ),
        }
    }

    /// The ranges of the file that are to be dropped for these ranges of the
    /// device. Where the file's mapping cannot be found, or its extents cannot
    /// be had or used, it is the whole file: slower, and always safe.
    pub fn invalidate_device_ranges(
        &self,
        device_ranges: &Vec<(u64, u64)>,
        extents: &Option<Vec<Extent>>,
        map_len: Option<u64>,
        file_len: u64,
    ) -> (r: Vec<(u64, u64)>)
        ensures
            r@ == (match map_len {
                Some(n) => dropped_for(device_ranges@, *extents, n),
                None => seq![(0u64, file_len)],
            }),
    {
        if map_len.is_none() {
            return whole_file(map_len, file_len);
        }
        if let Some(x) = extents {
            if can_use(x, device_ranges) {
                let mut out: Vec<(u64, u64)> = Vec::new();
                let mut i: usize = 0;
                while i < device_ranges.len()
                    invariant
                        i <= device_ranges@.len(),
                        all_sound(x@),
                        all_fit(device_ranges@),
                        out@ == all_file_ranges(x@, device_ranges@.take(i as int)),
                    decreases device_ranges@.len() - i,
                {
                    let (dev_off, len): (u64, u64) = device_ranges[i];
                    assert(device_ranges@[i as int].0 + device_ranges@[i as int].1 <= u64::MAX);
                    assert(device_ranges@.take(i + 1).drop_last() =~= device_ranges@.take(
                        i as int,
                    ));
                    let mut more = device_to_file(x.as_slice(), dev_off, len);
                    out.append(&mut more);
                    i = i + 1;
                }
                assert(device_ranges@.take(i as int) =~= device_ranges@);
                return out;
            }
        }
        whole_file(map_len, file_len)
    }
}

fn whole_file(map_len: Option<u64>, file_len: u64) -> (r: Vec<(u64, u64)>)
    ensures
        r@ == all_of(map_len, file_len),
{
    let len: u64 = match map_len {
        Some(n) => n,
        None => file_len,
    };
    let mut all: Vec<(u64, u64)> = Vec::new();
    all.push((0, len));
    assert(all@ =~= seq![(0u64, len)]);
    all
}

/// A sidecar that does not parse has the whole of the file dropped, whatever
/// batch it names and whatever its ranges are.
pub proof fn lemma_torn_drops_everything(
    sidecar: Seq<u8>,
    last_seq: u64,
    pending: Pending,
    extents: Option<Vec<Extent>>,
    map_len: Option<u64>,
    file_len: u64,
)
    requires
        calls_for(sidecar, last_seq, pending),
        sidecar.len() < 8 || (sidecar.len() - 8) % 16 != 0,
    ensures
        dropped_in(pending, extents, map_len, file_len) == all_of(map_len, file_len),
{
}

/// Where the mapping cannot be found, or the extents cannot be had or there are
/// none, the whole of the file is dropped for every new batch, whatever its
/// ranges are.
pub proof fn lemma_unmapped_drops_everything(
    sidecar: Seq<u8>,
    last_seq: u64,
    pending: Pending,
    extents: Option<Vec<Extent>>,
    map_len: Option<u64>,
    file_len: u64,
)
    requires
        calls_for(sidecar, last_seq, pending),
        sidecar.len() >= 8 ==> seq_of(sidecar) > last_seq,
        map_len is None || extents is None || extents->Some_0@.len() == 0,
    ensures
        dropped_in(pending, extents, map_len, file_len) == all_of(map_len, file_len),
{
}

/// A batch that a sidecar calls for is a new one.
pub proof fn lemma_batch_is_new(sidecar: Seq<u8>, last_seq: u64, pending: Pending)
    requires
        calls_for(sidecar, last_seq, pending),
    ensures
        batch_of(pending) matches Some(seq) ==> seq > last_seq,
{
}

/// A sidecar that is whole takes effect once: a new batch's number is taken
/// over, whatever could be dropped for it, and after that the same sidecar
/// calls for nothing.
pub proof fn lemma_batch_takes_effect_once(
    sidecar: Seq<u8>,
    last_seq: u64,
    first: Pending,
    second: Pending,
)
    requires
        whole(sidecar),
        calls_for(sidecar, last_seq, first),
        calls_for(
            sidecar,
            match batch_of(first) {
                Some(seq) => seq,
                None => last_seq,
            },
            second,
        ),
    ensures
        seq_of(sidecar) > last_seq ==> batch_of(first) == Some(seq_of(sidecar)),
        seq_of(sidecar) <= last_seq ==> first is Nothing,
        second is Nothing,
{
}

// -------------------------------------------------------------------- pages

/// What is dropped for a range of the file: the pages that it touches, as an
/// offset and a length, and how many bytes of them are mapped.
#[derive(Clone, Copy, Debug, PartialEq, Eq, Structural)]
pub struct DropPlan {
    pub off: u64,
    pub span: u64,
    pub span_in_map: Option<u64>,
}

/// The pages that `len` bytes from `file_off` on touch.
pub fn drop_range(map_len: u64, file_off: u64, len: u64) -> (r: DropPlan)
    requires
        file_off + len + (PAGE - 1) <= u64::MAX,
    ensures
        r.off % PAGE == 0,
        (r.off + r.span) % PAGE as int == 0,
        r.off <= file_off < r.off + PAGE,
        r.off + r.span - PAGE < file_off + len <= r.off + r.span,
        r.span_in_map == (if r.off < map_len {
            Some(
                if r.span < map_len - r.off {
                    r.span
                } else {
                    (map_len - r.off) as u64
                },
            )
        } else {
            None
        }),
{
    let off: u64 = file_off - file_off % PAGE;
    let up: u64 = file_off + len + (PAGE - 1);
    let end: u64 = up - up % PAGE;
    let span: u64 = end - off;
    let span_in_map: Option<u64> = if off < map_len {
        if span < map_len - off {
            Some(span)
        } else {
            Some(map_len - off)
        }
    } else {
        None
    };
    DropPlan { off, span, span_in_map }
}

// ------------------------------------------------------------------ mapping

/// The number that hexadecimal digits stand for.
pub open spec fn digits_value(s: Seq<char>) -> Option<nat>
    decreases s.len(),
{
    if s.len() == 0 {
        Some(0)
    } else {
        match (digits_value(s.drop_last()), text::hex_value(s.last())) {
            (Some(v), Some(d)) => Some(v * 16 + d as nat),
            _ => None,
        }
    }
}

/// The number that a text stands for in base 16: digits, of which there is
/// one, behind a plus sign if there is one.
pub open spec fn hex_number(s: Seq<char>) -> Option<nat> {
    let digits = if s.len() > 1 && s[0] == '+' {
        s.skip(1)
    } else {
        s
    };
    if digits.len() == 0 {
        None
    } else {
        match digits_value(digits) {
            Some(v) => if v <= u64::MAX {
                Some(v)
            } else {
                None
            },
            None => None,
        }
    }
}

proof fn lemma_digits_prefix(s: Seq<char>, k: int)
    requires
        0 <= k <= s.len(),
    ensures
        digits_value(s.take(k)) is None ==> digits_value(s) is None,
        digits_value(s) matches Some(v) ==> digits_value(s.take(k)) is Some && digits_value(
            s.take(k),
        )->Some_0 <= v,
    decreases s.len(),
{
    if k == s.len() {
        assert(s.take(k) =~= s);
    } else {
        lemma_digits_prefix(s.drop_last(), k);
        assert(s.drop_last().take(k) =~= s.take(k));
    }
}

/// The number that a text stands for in base 16.
pub fn parse_hex(s: &str) -> (r: Option<u64>)
    ensures
        match r {
            Some(v) => hex_number(s@) == Some(v as nat),
            None => hex_number(s@) is None,
        },
{
    let v = chars_of(s);
    let from: usize = if v.len() > 1 && v[0] == '+' {
        1
    } else {
        0
    };
    if from >= v.len() {
        return None;
    }
    let ghost digits = v@.skip(from as int);
    let mut value: u64 = 0;
    let mut i: usize = from;
    assert(digits.take(0) =~= Seq::empty());
    assert(from == 0 ==> digits =~= s@);
    while i < v.len()
        invariant
            from <= i <= v@.len(),
            v@ == s@,
            from < v@.len(),
            digits == v@.skip(from as int),
            digits_value(digits.take(i - from)) == Some(value as nat),
            hex_number(s@) == (match digits_value(digits) {
                Some(x) => if x <= u64::MAX {
                    Some(x)
                } else {
                    None
                },
                None => None,
            }),
        decreases v@.len() - i,
    {
        let ghost more = digits.take(i + 1 - from);
        assert(more.drop_last() =~= digits.take(i - from));
        assert(more.last() == v@[i as int]);
        proof {
            lemma_digits_prefix(digits, i + 1 - from);
        }
        match hex_value_of(v[i]) {
            Some(d) => {
                if value > (u64::MAX - d as u64) / 16 {
                    assert(value * 16 + d > u64::MAX);
                    return None;
                }
                value = value * 16 + d as u64;
            },
            None => {
                return None;
            },
        }
        i = i + 1;
    }
    assert(digits.take(i - from) =~= digits);
    Some(value)
}

/// `line` ends with `tail`.
pub open spec fn ends_with(line: Seq<char>, tail: Seq<char>) -> bool {
    line.len() >= tail.len() && line.skip(line.len() - tail.len()) == tail
}

/// The mapping that a line of the process's maps describes: where it starts
/// and how long it is. A mapping that ends before it starts is none.
pub open spec fn mapping_in(line: Seq<char>) -> Option<(u64, u64)> {
    let range = metrics::first_word(metrics::trimmed_start(line));
    match metrics::first_of(range, '-') {
        None => None,
        Some(i) => match (hex_number(range.take(i)), hex_number(range.skip(i + 1))) {
            (Some(a), Some(b)) => if a <= b {
                Some((a as u64, (b - a) as u64))
            } else {
                None
            },
            _ => None,
        },
    }
}

/// The mapping that the first of these lines describes that ends with `path`.
pub open spec fn mapping_of(lines: Seq<Seq<char>>, path: Seq<char>) -> Option<(u64, u64)>
    decreases lines.len(),
{
    if lines.len() == 0 {
        None
    } else if ends_with(lines[0], path) {
        mapping_in(lines[0])
    } else {
        mapping_of(lines.skip(1), path)
    }
}

fn line_ends_with(line: &str, tail: &str) -> (r: bool)
    ensures
        r == ends_with(line@, tail@),
{
    let n: usize = line.unicode_len();
    let m: usize = tail.unicode_len();
    if n < m {
        return false;
    }
    let end: String = line.substring_char(n - m, n).to_owned();
    assert(line@.subrange(n - m, n as int) =~= line@.skip(n - m));
    end == tail.to_owned()
}

fn read_mapping(line: &str) -> (r: Option<(u64, u64)>)
    ensures
        r == mapping_in(line@),
{
    let range = take_word(trim_start(line));
    let v = chars_of(range);
    let at: usize = match find_first(&v, '-') {
        Some(i) => i,
        None => {
            return None;
        },
    };
    let left = range.substring_char(0, at);
    let right = range.substring_char(at + 1, v.len());
    assert(left@ =~= range@.take(at as int));
    assert(right@ =~= range@.skip(at + 1));
    match (parse_hex(left), parse_hex(right)) {
        (Some(a), Some(b)) => if a <= b {
            Some((a, b - a))
        } else {
            None
        },
        _ => None,
    }
}

/// Where the process has the database file mapped, by what `/proc/self/maps`
/// says: the file is mapped exactly once.
pub fn mdbx_mapping(maps: &str, data_path: &str) -> (r: Option<(u64, u64)>)
    ensures
        r == mapping_of(metrics::lines_of(maps@), data_path@),
{
    let lines = split_lines(maps);
    let ghost said = metrics::strings_view(lines@);
    let mut i: usize = 0;
    assert(said.skip(0) =~= said);
    while i < lines.len()
        invariant
            i <= lines@.len(),
            said == metrics::strings_view(lines@),
            said == metrics::lines_of(maps@),
            mapping_of(said, data_path@) == mapping_of(said.skip(i as int), data_path@),
        decreases lines@.len() - i,
    {
        assert(said.skip(i as int)[0] == lines@[i as int]@);
        assert(said.skip(i as int).skip(1) =~= said.skip(i + 1));
        if line_ends_with(lines[i].as_str(), data_path) {
            return read_mapping(lines[i].as_str());
        }
        i = i + 1;
    }
    None
}

} // verus!
