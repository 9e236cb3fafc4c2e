//! What is dropped of the data file when the device under it was rewritten: which bytes
//! of the sidecar say what, and which bytes of the file they come to.

use vstd::prelude::*;

use crate::barrier;
use crate::barrier::{Barrier, DropPlan, Extent, Pending};
use crate::metrics;
use crate::primitives;
use crate::readback;
use crate::scrape;
use crate::text;

verus! {

// ------------------------------------------------------------------- sidecar

/// The number in the eight bytes from `at` on, the lowest byte first.
pub open spec fn number_at(b: Seq<u8>, at: int) -> int {
    b[at] + 0x100 * b[at + 1] + 0x1_0000 * b[at + 2] + 0x100_0000 * b[at + 3] + 0x1_0000_0000 * b[at
        + 4] + 0x100_0000_0000 * b[at + 5] + 0x1_0000_0000_0000 * b[at + 6] + 0x100_0000_0000_0000
        * b[at + 7]
}

proof fn lemma_number_at(b: Seq<u8>, at: int)
    requires
        0 <= at <= at + 8 <= b.len(),
    ensures
        primitives::le_value(b.subrange(at, at + 8)) == number_at(b, at),
        0 <= number_at(b, at) <= u64::MAX,
{
    let s = b.subrange(at, at + 8);
    readback::lemma_le_value_of_eight(s);
    assert(s[0] == b[at] && s[1] == b[at + 1] && s[2] == b[at + 2] && s[3] == b[at + 3] && s[4]
        == b[at + 4] && s[5] == b[at + 5] && s[6] == b[at + 6] && s[7] == b[at + 7]);
}

/// A sidecar is the number of its batch, and then the start and the length of each
/// range. A batch that was seen before calls for nothing; a sidecar that is cut short
/// calls for all of the file, and is over with the number that it says, where that one
/// is new.
pub open spec fn read_as(b: Seq<u8>, last_seq: u64, r: Pending) -> bool {
    let torn = b.len() < 8 || (b.len() - 8) % 16 != 0;
    &&& torn <==> r is Whole
    &&& !torn && number_at(b, 0) <= last_seq <==> r is Nothing
    &&& r matches Pending::Whole { seq } ==> seq == (if b.len() >= 8 && number_at(b, 0) > last_seq {
        Some(number_at(b, 0) as u64)
    } else {
        None
    })
    &&& r matches Pending::Ranges { seq, ranges } ==> {
        &&& seq == number_at(b, 0)
        &&& b.len() == 8 + 16 * ranges@.len()
        &&& forall|i: int|
            0 <= i < ranges@.len() ==> (#[trigger] ranges@[i]).0 == number_at(b, 8 + 16 * i)
                && ranges@[i].1 == number_at(b, 16 + 16 * i)
    }
}

/// What the bytes of a sidecar say.
pub proof fn lemma_sidecar(b: &[u8], last_seq: u64, barrier: Barrier, r: Pending, s: Pending)
    requires
        call_ensures(barrier::read_sidecar, (b, last_seq), r),
        call_ensures(Barrier::consume_ranges, (&barrier, b), s),
    ensures
        read_as(b@, last_seq, r),
        read_as(b@, barrier.last_seq, s),
{
    lemma_read_as(b@, last_seq, r);
    lemma_read_as(b@, barrier.last_seq, s);
}

proof fn lemma_read_as(b: Seq<u8>, last_seq: u64, r: Pending)
    requires
        barrier::calls_for(b, last_seq, r),
    ensures
        read_as(b, last_seq, r),
{
    if b.len() >= 8 {
        lemma_number_at(b, 0);
        assert(b.take(8) =~= b.subrange(0, 8));
    }
    if let Pending::Ranges { seq, ranges } = r {
        assert forall|i: int| 0 <= i < ranges@.len() implies (#[trigger] ranges@[i]).0 == number_at(
            b,
            8 + 16 * i,
        ) && ranges@[i].1 == number_at(b, 16 + 16 * i) by {
            lemma_number_at(b, 8 + 16 * i);
            lemma_number_at(b, 16 + 16 * i);
            assert(ranges@[i] == barrier::range_of(b, i));
        }
    }
}

/// Once what a sidecar calls for was dropped, its batch is over: the same sidecar,
/// where it is whole, calls for nothing more. Everything else about the barrier stays.
pub proof fn lemma_batch_is_over(x: &mut Barrier, b: &[u8], p: Pending, again: Pending)
    requires
        call_ensures(Barrier::consume_ranges, (&*old(x), b), p),
        call_ensures(Barrier::consumed, (x, &p), ()),
        call_ensures(Barrier::consume_ranges, (&*final(x), b), again),
    ensures
        final(x).last_seq >= old(x).last_seq,
        b@.len() >= 8 && number_at(b@, 0) > old(x).last_seq ==> final(x).last_seq == number_at(
            b@,
            0,
        ),
        b@.len() < 8 || number_at(b@, 0) <= old(x).last_seq ==> final(x).last_seq == old(
            x).last_seq,
        !(p is Whole) ==> again is Nothing,
        final(x).lock_path == old(x).lock_path,
        final(x).ranges_path == old(x).ranges_path,
        final(x).data_path == old(x).data_path,
{
    lemma_read_as(b@, old(x).last_seq, p);
    lemma_read_as(b@, final(x).last_seq, again);
}

// -------------------------------------------------------------------- ranges

/// The byte of the file at `off` was rewritten: it lies on the device, by one of the
/// extents, in one of the ranges.
pub open spec fn rewritten(
    extents: Seq<Extent>,
    ranges: Seq<(u64, u64)>,
    off: int,
    k: int,
    j: int,
) -> bool {
    &&& 0 <= k < extents.len()
    &&& 0 <= j < ranges.len()
    &&& extents[k].0 <= off < extents[k].0 + extents[k].2
    &&& ranges[j].0 <= extents[k].1 + (off - extents[k].0) < ranges[j].0 + ranges[j].1
}

proof fn lemma_one_range(extents: Seq<Extent>, dev_off: u64, len: u64, off: int)
    requires
        dev_off + len <= u64::MAX,
        barrier::all_sound(extents),
    ensures
        barrier::covered(barrier::file_ranges(extents, dev_off, len), off) <==> exists|k: int|
            #[trigger] rewritten(extents, seq![(dev_off, len)], off, k, 0),
{
    let f = barrier::file_ranges(extents, dev_off, len);
    let one = seq![(dev_off, len)];
    barrier::lemma_rewritten_is_covered(extents, dev_off, len, off);
    if barrier::covered(f, off) {
        let (k, dev) = choose|k: int, dev: int|
            {
                &&& 0 <= k < extents.len()
                &&& #[trigger] barrier::maps(extents[k], off, dev)
                &&& dev_off <= dev < dev_off + len
            };
        assert(rewritten(extents, one, off, k, 0));
    }
    if exists|k: int| #[trigger] rewritten(extents, one, off, k, 0) {
        let k = choose|k: int| #[trigger] rewritten(extents, one, off, k, 0);
        assert(barrier::maps(extents[k], off, extents[k].1 + (off - extents[k].0)));
    }
}

proof fn lemma_all_ranges(extents: Seq<Extent>, ranges: Seq<(u64, u64)>, off: int)
    requires
        barrier::all_fit(ranges),
        barrier::all_sound(extents),
    ensures
        barrier::covered(barrier::all_file_ranges(extents, ranges), off) <==> exists|k: int, j: int|
            #[trigger] rewritten(extents, ranges, off, k, j),
    decreases ranges.len(),
{
    let all = barrier::all_file_ranges(extents, ranges);
    if ranges.len() == 0 {
    } else {
        let n = ranges.len() - 1;
        let p = ranges.drop_last();
        let one = seq![(ranges.last().0, ranges.last().1)];
        assert(ranges[n].0 + ranges[n].1 <= u64::MAX);
        assert forall|i: int| 0 <= i < p.len() implies (#[trigger] p[i]).0 + p[i].1 <= u64::MAX by {
            assert(p[i] == ranges[i]);
        }
        lemma_all_ranges(extents, p, off);
        lemma_one_range(extents, ranges.last().0, ranges.last().1, off);
        let a = barrier::all_file_ranges(extents, p);
        let b = barrier::file_ranges(extents, ranges.last().0, ranges.last().1);
        if barrier::covered(all, off) {
            let i = choose|i: int|
                0 <= i < all.len() && (#[trigger] all[i]).0 <= off < all[i].0 + all[i].1;
            if i < a.len() {
                assert(a[i] == all[i]);
                assert(barrier::covered(a, off));
                let (k, j) = choose|k: int, j: int| #[trigger] rewritten(extents, p, off, k, j);
                assert(rewritten(extents, ranges, off, k, j));
            } else {
                assert(b[i - a.len()] == all[i]);
                assert(barrier::covered(b, off));
                let k = choose|k: int| #[trigger] rewritten(extents, one, off, k, 0);
                assert(rewritten(extents, ranges, off, k, n));
            }
        }
        if exists|k: int, j: int| #[trigger] rewritten(extents, ranges, off, k, j) {
            let (k, j) = choose|k: int, j: int| #[trigger] rewritten(extents, ranges, off, k, j);
            if j < n {
                assert(rewritten(extents, p, off, k, j));
                let i = choose|i: int|
                    0 <= i < a.len() && (#[trigger] a[i]).0 <= off < a[i].0 + a[i].1;
                assert(all[i] == a[i]);
            } else {
                assert(rewritten(extents, one, off, k, 0));
                let i = choose|i: int|
                    0 <= i < b.len() && (#[trigger] b[i]).0 <= off < b[i].0 + b[i].1;
                assert(all[a.len() + i] == b[i]);
            }
        }
    }
}

/// Where the extents can be trusted: there are some, and no number in them or in the
/// ranges runs over.
pub open spec fn mappable(extents: Option<Vec<Extent>>, ranges: Seq<(u64, u64)>) -> bool {
    &&& extents is Some
    &&& extents->Some_0@.len() > 0
    &&& forall|i: int|
        0 <= i < extents->Some_0@.len() ==> (#[trigger] extents->Some_0@[i]).0
            + extents->Some_0@[i].2 <= u64::MAX && extents->Some_0@[i].1 + extents->Some_0@[i].2
            <= u64::MAX
    &&& forall|i: int| 0 <= i < ranges.len() ==> (#[trigger] ranges[i]).0 + ranges[i].1 <= u64::MAX
}

/// A byte of the file is dropped exactly where it was rewritten on the device.
pub open spec fn drops_exactly(
    extents: Seq<Extent>,
    ranges: Seq<(u64, u64)>,
    dropped: Seq<(u64, u64)>,
) -> bool {
    forall|off: int| #[trigger]
        barrier::covered(dropped, off) <==> exists|k: int, j: int| #[trigger]
            rewritten(extents, ranges, off, k, j)
}

/// A byte of the file is in one of the ranges exactly where the range of the device
/// holds it.
pub proof fn lemma_device_to_file(extents: &[Extent], dev_off: u64, len: u64, r: Vec<(u64, u64)>)
    requires
        dev_off + len <= u64::MAX,
        forall|i: int|
            0 <= i < extents@.len() ==> (#[trigger] extents@[i]).0 + extents@[i].2 <= u64::MAX
                && extents@[i].1 + extents@[i].2 <= u64::MAX,
        call_ensures(barrier::device_to_file, (extents, dev_off, len), r),
    ensures
        drops_exactly(extents@, seq![(dev_off, len)], r@),
{
    let one = seq![(dev_off, len)];
    assert(barrier::all_sound(extents@));
    assert forall|off: int| #[trigger] barrier::covered(r@, off) <==> exists|k: int, j: int|
        #[trigger] rewritten(extents@, one, off, k, j) by {
        lemma_one_range(extents@, dev_off, len, off);
        if exists|k: int, j: int| #[trigger] rewritten(extents@, one, off, k, j) {
            let (k, j) = choose|k: int, j: int| #[trigger] rewritten(extents@, one, off, k, j);
            assert(j == 0);
        }
    }
}

/// What is dropped for a sidecar. Nothing where it calls for nothing; exactly what was
/// rewritten where the ranges can be mapped to the file; and else all of the file, as
/// far as it is mapped, or as far as it goes.
pub proof fn lemma_drops(
    barrier: Barrier,
    pending: Pending,
    extents: Option<Vec<Extent>>,
    map_len: Option<u64>,
    file_len: u64,
    r: Vec<(u64, u64)>,
)
    requires
        call_ensures(Barrier::drops, (&barrier, &pending, &extents, map_len, file_len), r),
    ensures
        pending is Nothing ==> r@.len() == 0,
        pending matches Pending::Ranges { ranges, .. } ==> {
            &&& map_len is Some && mappable(extents, ranges@) ==> drops_exactly(
                extents->Some_0@,
                ranges@,
                r@,
            )
            &&& map_len is Some && !mappable(extents, ranges@) ==> r@.len() == 1 && r@[0] == (
                0u64,
                map_len->Some_0,
            )
            &&& map_len is None ==> r@.len() == 1 && r@[0] == (0u64, file_len)
        },
        pending is Whole ==> r@.len() == 1 && r@[0].0 == 0 && r@[0].1 == (match map_len {
            Some(n) => n,
            None => file_len,
        }),
{
    if let Pending::Ranges { ranges, .. } = pending {
        if map_len is Some {
            lemma_dropped_for(ranges@, extents, map_len->Some_0);
        }
    }
}

proof fn lemma_dropped_for(ranges: Seq<(u64, u64)>, extents: Option<Vec<Extent>>, n: u64)
    ensures
        mappable(extents, ranges) ==> drops_exactly(
            extents->Some_0@,
            ranges,
            barrier::dropped_for(ranges, extents, n),
        ),
        !mappable(extents, ranges) ==> barrier::dropped_for(ranges, extents, n) == seq![(0u64, n)],
{
    if mappable(extents, ranges) {
        assert(barrier::all_sound(extents->Some_0@));
        assert(barrier::all_fit(ranges));
        let d = barrier::dropped_for(ranges, extents, n);
        assert forall|off: int| #[trigger] barrier::covered(d, off) <==> exists|k: int, j: int|
            #[trigger] rewritten(extents->Some_0@, ranges, off, k, j) by {
            lemma_all_ranges(extents->Some_0@, ranges, off);
        }
    } else if barrier::usable(extents, ranges) {
        assert(barrier::all_sound(extents->Some_0@));
        assert(barrier::all_fit(ranges));
        assert(mappable(extents, ranges));
    }
}

/// The same of ranges that are not from a sidecar.
pub proof fn lemma_invalidate(
    barrier: Barrier,
    ranges: Vec<(u64, u64)>,
    extents: Option<Vec<Extent>>,
    map_len: Option<u64>,
    file_len: u64,
    r: Vec<(u64, u64)>,
)
    requires
        call_ensures(
            Barrier::invalidate_device_ranges,
            (&barrier, &ranges, &extents, map_len, file_len),
            r,
        ),
    ensures
        map_len is Some && mappable(extents, ranges@) ==> drops_exactly(
            extents->Some_0@,
            ranges@,
            r@,
        ),
        map_len is Some && !mappable(extents, ranges@) ==> r@.len() == 1 && r@[0] == (
            0u64,
            map_len->Some_0,
        ),
        map_len is None ==> r@.len() == 1 && r@[0] == (0u64, file_len),
{
    if map_len is Some {
        lemma_dropped_for(ranges@, extents, map_len->Some_0);
    }
}

/// A byte is dropped with its page: pages of 4096 bytes, those that hold a byte of the
/// range and no others, and of the mapping no more than there is.
pub proof fn lemma_pages(map_len: u64, file_off: u64, len: u64, page: int, r: DropPlan)
    requires
        file_off + len + 4095 <= u64::MAX,
        call_ensures(barrier::drop_range, (map_len, file_off, len), r),
        page >= 0,
    ensures
        r.off as int % 4096 == 0,
        r.span as int % 4096 == 0,
        len > 0 ==> (r.off <= 4096 * page < r.off + r.span <==> 4096 * page < file_off + len
            && 4096 * page + 4095 >= file_off),
        len == 0 && file_off as int % 4096 == 0 ==> r.span == 0 && r.off == file_off,
        len == 0 && file_off as int % 4096 != 0 ==> r.span == 4096 && r.off < file_off,
        r.span_in_map is None <==> r.off >= map_len,
        r.span_in_map matches Some(n) ==> n <= r.span && r.off + n <= map_len && (n == r.span
            || r.off + n == map_len),
{
}

// ------------------------------------------------------------------- mapping

/// `line` ends with `path`.
pub open spec fn is_of(line: Seq<char>, path: Seq<char>) -> bool {
    &&& line.len() >= path.len()
    &&& forall|i: int|
        0 <= i < path.len() ==> #[trigger] path[i] == line[line.len() - path.len() + i]
}

proof fn lemma_is_of(line: Seq<char>, path: Seq<char>)
    ensures
        is_of(line, path) <==> barrier::ends_with(line, path),
{
    if is_of(line, path) {
        assert(line.skip(line.len() - path.len()) =~= path);
    }
    if barrier::ends_with(line, path) {
        let t = line.skip(line.len() - path.len());
        assert forall|i: int| 0 <= i < path.len() implies #[trigger] path[i] == line[line.len()
            - path.len() + i] by {
            assert(t[i] == path[i]);
        }
    }
}

proof fn lemma_first_mapping(lines: Seq<Seq<char>>, path: Seq<char>, k: int)
    requires
        0 <= k <= lines.len(),
        forall|i: int| 0 <= i < k ==> !is_of(#[trigger] lines[i], path),
    ensures
        k < lines.len() && is_of(lines[k], path) ==> barrier::mapping_of(lines, path)
            == barrier::mapping_in(lines[k]),
        k == lines.len() ==> barrier::mapping_of(lines, path) is None,
    decreases k,
{
    if lines.len() > 0 {
        lemma_is_of(lines[0], path);
    }
    if k > 0 {
        assert(!is_of(lines[0], path));
        let t = lines.skip(1);
        assert forall|i: int| 0 <= i < k - 1 implies !is_of(#[trigger] t[i], path) by {
            assert(t[i] == lines[i + 1]);
        }
        lemma_first_mapping(t, path, k - 1);
    }
}

/// A line of a mapping, as it is written: where the mapping starts and where it ends,
/// with a dash between them, and then what else is told of it.
pub open spec fn mapping_line(
    blank: Seq<char>,
    start: Seq<char>,
    end: Seq<char>,
    tail: Seq<char>,
) -> Seq<char> {
    blank + start + seq!['-'] + end + tail
}

proof fn lemma_mapping_in(
    blank: Seq<char>,
    start: Seq<char>,
    end: Seq<char>,
    tail: Seq<char>,
)
    requires
        scrape::all_white(blank),
        scrape::no_white(start),
        scrape::lacks(start, '-'),
        scrape::no_white(end),
        tail.len() > 0 ==> text::white_space(tail[0]),
    ensures
        ({
            let word = start + seq!['-'] + end;
            let line = mapping_line(blank, start, end, tail);
            &&& metrics::first_word(metrics::trimmed_start(line)) == word
            &&& metrics::first_of(word, '-') == Some(start.len() as int)
            &&& word.take(start.len() as int) == start
            &&& word.skip(start.len() as int + 1) == end
        }),
{
    let word = start + seq!['-'] + end;
    let line = mapping_line(blank, start, end, tail);
    let n = start.len() as int;
    scrape::lemma_trimmed_start(line);
    let t = metrics::trimmed_start(line);
    let cut = line.len() - t.len();
    assert(!text::white_space(word[0])) by {
        assert(word[0] == if n > 0 { start[0] } else { '-' });
    }
    assert(line[blank.len() as int] == word[0]);
    if cut > blank.len() {
        assert(line.take(cut)[blank.len() as int] == line[blank.len() as int]);
    }
    if cut < blank.len() {
        assert(t[0] == line[cut]);
        assert(line[cut] == blank[cut]);
    }
    assert(line.skip(blank.len() as int) =~= word + tail);
    assert forall|i: int| 0 <= i < word.len() implies !text::white_space(#[trigger] word[i]) by {
        if i < n {
            assert(word[i] == start[i]);
        } else if i > n {
            assert(word[i] == end[i - n - 1]);
        }
    }
    scrape::lemma_word_is_first(word, tail);
    assert forall|k: int| 0 <= k < n implies word[k] != '-' by {
        assert(word[k] == start[k]);
    }
    metrics::lemma_first_of_found(word, '-', n);
    assert(word.take(n) =~= start);
    assert(word.skip(n + 1) =~= end);
}

/// The mapping of the data file is that of the first line that ends with its path:
/// where the line says that it starts, and as long as up to where it says that it ends.
pub proof fn lemma_mapping(
    maps: &str,
    path: &str,
    lines: Vec<String>,
    k: int,
    blank: Seq<char>,
    start: &str,
    end: &str,
    tail: Seq<char>,
    a: Option<u64>,
    b: Option<u64>,
    r: Option<(u64, u64)>,
)
    requires
        call_ensures(metrics::split_lines, (maps,), lines),
        call_ensures(barrier::mdbx_mapping, (maps, path), r),
        call_ensures(barrier::parse_hex, (start,), a),
        call_ensures(barrier::parse_hex, (end,), b),
        0 <= k <= lines@.len(),
        forall|i: int| 0 <= i < k ==> !is_of((#[trigger] lines@[i])@, path@),
        scrape::all_white(blank),
        scrape::no_white(start@),
        scrape::lacks(start@, '-'),
        scrape::no_white(end@),
        tail.len() > 0 ==> text::white_space(tail[0]),
    ensures
        k == lines@.len() ==> r is None,
        k < lines@.len() && is_of(lines@[k]@, path@) && lines@[k]@ == mapping_line(
            blank,
            start@,
            end@,
            tail,
        ) ==> {
            &&& r is Some <==> a is Some && b is Some && a->Some_0 <= b->Some_0
            &&& r matches Some((at, len)) ==> at == a->Some_0 && at + len == b->Some_0
        },
{
    let v = metrics::strings_view(lines@);
    assert(v.len() == lines@.len());
    assert forall|i: int| 0 <= i < k implies !is_of(#[trigger] v[i], path@) by {
        assert(v[i] == lines@[i]@);
    }
    lemma_first_mapping(v, path@, k);
    lemma_mapping_in(blank, start@, end@, tail);
    if k < lines@.len() {
        assert(v[k] == lines@[k]@);
    }
}

/// A line whose first word has no dash tells of no mapping.
pub proof fn lemma_no_dash(line: Seq<char>)
    requires
        scrape::lacks(metrics::first_word(metrics::trimmed_start(line)), '-'),
    ensures
        barrier::mapping_in(line) is None,
{
    metrics::lemma_first_of_none(metrics::first_word(metrics::trimmed_start(line)), '-');
}

// --------------------------------------------------------------------- paths

/// There is a barrier where a lock is set: the lock and the ranges beside it, and the
/// data file in the directory of the database.
pub proof fn lemma_paths(lock: Option<String>, dir: &str, r: Option<Barrier>)
    requires
        call_ensures(barrier::get, (&lock, dir), r),
    ensures
        r is Some <==> lock is Some,
        r matches Some(b) ==> {
            &&& exists|n: int| #[trigger] scrape::trims(lock->Some_0@, b.lock_path@, n)
            &&& b.ranges_path@.take(b.lock_path@.len() as int) == b.lock_path@
            &&& b.ranges_path@.skip(b.lock_path@.len() as int) == ".ranges"@
            &&& b.data_path@.take(dir@.len() as int) == dir@
            &&& dir@.len() > 0 && dir@.last() != '/' ==> b.data_path@.skip(dir@.len() as int)
                == "/mdbx.dat"@
            &&& dir@.len() == 0 || dir@.last() == '/' ==> b.data_path@.skip(dir@.len() as int)
                == "mdbx.dat"@
            &&& b.last_seq == 0
        },
{
    reveal_strlit("/mdbx.dat");
    reveal_strlit("mdbx.dat");
    reveal_strlit("/");
    assert("/"@ + "mdbx.dat"@ =~= "/mdbx.dat"@);
    if let Some(b) = r {
        let l = lock->Some_0@;
        let n = b.lock_path@.len() as int;
        scrape::lemma_trims(l);
        assert(b.ranges_path@.take(n) =~= b.lock_path@);
        assert(b.ranges_path@.skip(n) =~= ".ranges"@);
        let d = dir@.len() as int;
        assert(b.data_path@.take(d) =~= dir@);
        if d > 0 && dir@.last() != '/' {
            assert(b.data_path@.skip(d) =~= "/"@ + "mdbx.dat"@);
        } else {
            assert(b.data_path@.skip(d) =~= "mdbx.dat"@);
        }
    }
}

} // verus!
