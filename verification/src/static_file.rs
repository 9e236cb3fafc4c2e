//! The static files of a node: gathered by segment, in the order of the blocks
//! they hold.

use vstd::multiset::Multiset;
use vstd::prelude::*;

verus! {

/// What a static file holds.
#[derive(Clone, Copy, Debug, PartialEq, Eq, Structural)]
pub enum StaticFileSegment {
    Headers,
    Transactions,
    Receipts,
    TransactionSenders,
    AccountChangeSets,
    StorageChangeSets,
}

/// A range of blocks, both ends included.
#[derive(Clone, Copy, Debug, PartialEq, Eq, Structural)]
pub struct SegmentRangeInclusive {
    pub start: u64,
    pub end: u64,
}

/// A static file: the blocks that it holds, and its header.
#[derive(Debug)]
pub struct StaticFile<H> {
    pub block_range: SegmentRangeInclusive,
    pub header: H,
}

/// A static file whose header was loaded.
#[derive(Debug)]
pub struct LoadedFile<H> {
    pub segment: StaticFileSegment,
    pub file: StaticFile<H>,
}

/// The static files of one segment.
#[derive(Debug)]
pub struct SegmentFiles<H> {
    pub segment: StaticFileSegment,
    pub files: Vec<StaticFile<H>>,
}

/// The static files of a node, by segment.
#[derive(Debug)]
pub struct SortedStaticFiles<H> {
    pub groups: Vec<SegmentFiles<H>>,
}

/// The file that an outcome of loading stands for, if it is one of `segment`.
pub open spec fn file_in<H, E>(
    outcome: Result<Option<LoadedFile<H>>, E>,
    segment: StaticFileSegment,
) -> Option<StaticFile<H>> {
    match outcome {
        Ok(Some(l)) => if l.segment == segment {
            Some(l.file)
        } else {
            None
        },
        _ => None,
    }
}

/// The files of `segment` among those loaded.
pub open spec fn files_of<H, E>(
    loaded: Seq<Result<Option<LoadedFile<H>>, E>>,
    segment: StaticFileSegment,
) -> Multiset<StaticFile<H>>
    decreases loaded.len(),
{
    if loaded.len() == 0 {
        Multiset::empty()
    } else {
        let rest = files_of(loaded.skip(1), segment);
        match file_in(loaded[0], segment) {
            Some(file) => rest.insert(file),
            None => rest,
        }
    }
}

/// The files stand in the order of their last blocks.
pub open spec fn ends_ascend<H>(files: Seq<StaticFile<H>>) -> bool {
    forall|i: int, j: int|
        0 <= i < j < files.len() ==> (#[trigger] files[i]).block_range.end <= (
        #[trigger] files[j]).block_range.end
}

/// The files of `segment` among the groups.
pub open spec fn group_of<H>(groups: Seq<SegmentFiles<H>>, segment: StaticFileSegment) -> Seq<
    StaticFile<H>,
>
    decreases groups.len(),
{
    if groups.len() == 0 {
        Seq::empty()
    } else if groups.last().segment == segment {
        groups.last().files@
    } else {
        group_of(groups.drop_last(), segment)
    }
}

/// Every segment has one group, with a file in it, whose files are in order.
pub open spec fn groups_in_order<H>(groups: Seq<SegmentFiles<H>>) -> bool {
    &&& forall|i: int, j: int|
        0 <= i < j < groups.len() ==> (#[trigger] groups[i]).segment != (
        #[trigger] groups[j]).segment
    &&& forall|i: int|
        0 <= i < groups.len() ==> (#[trigger] groups[i]).files@.len() > 0 && ends_ascend(
            groups[i].files@,
        )
}

/// The groups hold the files that were loaded, each in its segment's group.
pub open spec fn holds<H, E>(
    groups: Seq<SegmentFiles<H>>,
    loaded: Seq<Result<Option<LoadedFile<H>>, E>>,
) -> bool {
    forall|s: StaticFileSegment|
        #[trigger] group_of(groups, s).to_multiset() == files_of(loaded, s)
}

pub(crate) proof fn lemma_group_at<H>(groups: Seq<SegmentFiles<H>>, i: int)
    requires
        groups_in_order(groups),
        0 <= i < groups.len(),
    ensures
        group_of(groups, groups[i].segment) == groups[i].files@,
    decreases groups.len(),
{
    let n = groups.len() - 1;
    if i < n {
        let p = groups.drop_last();
        assert(groups[i].segment != groups[n].segment);
        assert(groups_in_order(p)) by {
            assert forall|a: int, b: int| 0 <= a < b < p.len() implies (#[trigger] p[a]).segment
                != (#[trigger] p[b]).segment by {
                assert(groups[a].segment != groups[b].segment);
            }
            assert forall|a: int| 0 <= a < p.len() implies (#[trigger] p[a]).files@.len() > 0
                && ends_ascend(p[a].files@) by {
                assert(groups[a].files@.len() > 0);
            }
        }
        lemma_group_at(p, i);
        assert(p[i] == groups[i]);
    }
}

pub(crate) proof fn lemma_no_group<H>(groups: Seq<SegmentFiles<H>>, s: StaticFileSegment)
    requires
        forall|i: int| 0 <= i < groups.len() ==> (#[trigger] groups[i]).segment != s,
    ensures
        group_of(groups, s) == Seq::<StaticFile<H>>::empty(),
    decreases groups.len(),
{
    if groups.len() > 0 {
        let p = groups.drop_last();
        assert(groups[groups.len() - 1].segment != s);
        assert forall|i: int| 0 <= i < p.len() implies (#[trigger] p[i]).segment != s by {
            assert(groups[i].segment != s);
        }
        lemma_no_group(p, s);
    }
}

fn insert_file<H>(files: &mut Vec<StaticFile<H>>, file: StaticFile<H>)
    requires
        ends_ascend(old(files)@),
    ensures
        ends_ascend(final(files)@),
        final(files)@.len() > 0,
        final(files)@.to_multiset() == old(files)@.to_multiset().insert(file),
{
    let ghost was = files@;
    let mut i: usize = 0;
    while i < files.len() && files[i].block_range.end <= file.block_range.end
        invariant
            i <= files@.len(),
            files@ == was,
            ends_ascend(was),
            forall|j: int|
                0 <= j < i ==> (#[trigger] was[j]).block_range.end <= file.block_range.end,
        decreases files@.len() - i,
    {
        i = i + 1;
    }
    let ghost now = was.insert(i as int, file);
    files.insert(i, file);
    proof {
        assert(files@ =~= now);
        assert forall|a: int, b: int| 0 <= a < b < now.len() implies (
        #[trigger] now[a]).block_range.end <= (#[trigger] now[b]).block_range.end by {
            let x = if a < i {
                a
            } else {
                a - 1
            };
            let y = if b < i {
                b
            } else {
                b - 1
            };
            if a != i && b != i {
                assert(was[x].block_range.end <= was[y].block_range.end);
            } else if b == i {
                assert(was[a].block_range.end <= file.block_range.end);
            } else if y > i {
                assert(was[i as int].block_range.end <= was[y].block_range.end);
            }
        }
        vstd::seq_lib::to_multiset_insert(was, i as int, file);
    }
}

fn place<H>(groups: &mut Vec<SegmentFiles<H>>, item: LoadedFile<H>)
    requires
        groups_in_order(old(groups)@),
    ensures
        groups_in_order(final(groups)@),
        forall|s: StaticFileSegment|
            #[trigger] group_of(final(groups)@, s).to_multiset() == (if s == item.segment {
                group_of(old(groups)@, s).to_multiset().insert(item.file)
            } else {
                group_of(old(groups)@, s).to_multiset()
            }),
{
    let ghost was = groups@;
    let segment: StaticFileSegment = item.segment;
    let ghost file = item.file;
    let mut i: usize = 0;
    while i < groups.len()
        invariant
            i <= groups@.len(),
            groups@ == was,
            was == old(groups)@,
            groups_in_order(was),
            segment == item.segment,
            file == item.file,
            forall|j: int| 0 <= j < i ==> (#[trigger] was[j]).segment != segment,
        decreases groups@.len() - i,
    {
        if groups[i].segment == segment {
            insert_file(&mut groups[i].files, item.file);
            proof {
                let now = groups@;
                assert forall|j: int| 0 <= j < was.len() && j != i implies #[trigger] now[j]
                    == was[j] by {}
                assert(groups_in_order(now)) by {
                    assert forall|a: int, b: int| 0 <= a < b < now.len() implies (
                    #[trigger] now[a]).segment != (#[trigger] now[b]).segment by {
                        assert(was[a].segment != was[b].segment);
                    }
                    assert forall|a: int| 0 <= a < now.len() implies (
                    #[trigger] now[a]).files@.len() > 0 && ends_ascend(now[a].files@) by {
                        if a != i {
                            assert(now[a] == was[a]);
                            assert(was[a].files@.len() > 0);
                        }
                    }
                }
                assert forall|s: StaticFileSegment| #[trigger] group_of(now, s).to_multiset() == (
                if s == segment {
                    group_of(was, s).to_multiset().insert(file)
                } else {
                    group_of(was, s).to_multiset()
                }) by {
                    lemma_group_at(was, i as int);
                    lemma_group_at(now, i as int);
                    if s != segment {
                        lemma_other_group(was, now, i as int, s);
                    }
                }
            }
            return;
        }
        i = i + 1;
    }
    let mut files: Vec<StaticFile<H>> = Vec::new();
    proof {
        assert(files@ =~= Seq::empty());
    }
    insert_file(&mut files, item.file);
    let ghost listed = files@;
    groups.push(SegmentFiles { segment, files });
    proof {
        let now = groups@;
        assert(now.drop_last() =~= was);
        assert forall|s: StaticFileSegment| #[trigger] group_of(now, s).to_multiset() == (if s
            == segment {
            group_of(was, s).to_multiset().insert(file)
        } else {
            group_of(was, s).to_multiset()
        }) by {
            if s == segment {
                lemma_no_group(was, s);
            }
        }
    }
}

proof fn lemma_other_group<H>(
    was: Seq<SegmentFiles<H>>,
    now: Seq<SegmentFiles<H>>,
    i: int,
    s: StaticFileSegment,
)
    requires
        0 <= i < was.len(),
        now.len() == was.len(),
        now[i].segment == was[i].segment,
        was[i].segment != s,
        forall|j: int| 0 <= j < was.len() && j != i ==> #[trigger] now[j] == was[j],
    ensures
        group_of(now, s) == group_of(was, s),
    decreases was.len(),
{
    let n = was.len() - 1;
    if i < n {
        assert(now[n] == was[n]);
        assert forall|j: int| 0 <= j < n && j != i implies #[trigger] now.drop_last()[j]
            == was.drop_last()[j] by {
            assert(now[j] == was[j]);
        }
        lemma_other_group(was.drop_last(), now.drop_last(), i, s);
    } else {
        assert(now.drop_last() =~= was.drop_last()) by {
            assert forall|j: int| 0 <= j < n implies now[j] == was[j] by {}
        }
    }
}

/// The static files of a node, out of the outcomes of loading them: what is no
/// static file, or holds no block, counts for nothing; an error ends it, the
/// first if there are several.
pub fn iter_static_files<H, E>(loaded: Vec<Result<Option<LoadedFile<H>>, E>>) -> (r: Result<
    SortedStaticFiles<H>,
    E,
>)
    ensures
        match r {
            Ok(sorted) => {
                &&& forall|i: int| 0 <= i < loaded@.len() ==> (#[trigger] loaded@[i]) is Ok
                &&& groups_in_order(sorted.groups@)
                &&& holds(sorted.groups@, loaded@)
            },
            Err(e) => exists|i: int|
                {
                    &&& 0 <= i < loaded@.len()
                    &&& #[trigger] loaded@[i] == Err::<Option<LoadedFile<H>>, E>(e)
                    &&& forall|j: int| 0 <= j < i ==> (#[trigger] loaded@[j]) is Ok
                },
        },
{
    let ghost all = loaded@;
    let mut left: Vec<Result<Option<LoadedFile<H>>, E>> = loaded;
    let mut groups: Vec<SegmentFiles<H>> = Vec::new();
    let mut error: Option<E> = None;
    let ghost mut at: int = 0;
    proof {
        assert(all.skip(all.len() as int) =~= Seq::empty());
        assert forall|s: StaticFileSegment| #[trigger] group_of(groups@, s).to_multiset()
            == files_of(all.skip(all.len() as int), s) by {
            vstd::seq_lib::to_multiset_len(group_of(groups@, s));
            assert(group_of(groups@, s).to_multiset() =~= Multiset::empty());
        }
    }
    while left.len() > 0
        invariant
            left@.len() <= all.len(),
            left@ == all.take(left@.len() as int),
            groups_in_order(groups@),
            holds(groups@, all.skip(left@.len() as int)),
            match error {
                Some(e) => {
                    &&& left@.len() <= at < all.len()
                    &&& all[at] == Err::<Option<LoadedFile<H>>, E>(e)
                    &&& forall|j: int| left@.len() <= j < at ==> (#[trigger] all[j]) is Ok
                },
                None => forall|j: int| left@.len() <= j < all.len() ==> (#[trigger] all[j]) is Ok,
            },
        decreases left@.len(),
    {
        let ghost n = left@.len() as int;
        let ghost before = groups@;
        if let Some(outcome) = left.pop() {
            assert(outcome == all[n - 1]);
            assert(left@ =~= all.take(n - 1));
            match outcome {
                Ok(Some(item)) => {
                    place(&mut groups, item);
                },
                Ok(None) => {},
                Err(e) => {
                    error = Some(e);
                    proof {
                        at = n - 1;
                    }
                },
            }
            proof {
                let more = all.skip(n - 1);
                assert(more.skip(1) =~= all.skip(n));
                assert(more[0] == all[n - 1]);
                assert forall|s: StaticFileSegment| #[trigger] group_of(groups@, s).to_multiset()
                    == files_of(more, s) by {
                    assert(group_of(before, s).to_multiset() == files_of(all.skip(n), s));
                }
            }
        }
    }
    assert(all.skip(0) =~= all);
    match error {
        Some(e) => Err(e),
        None => Ok(SortedStaticFiles { groups }),
    }
}

/// The number of threads that load the headers of so many files. The loads
/// wait for their reads, so that there are more of them than processors.
pub fn load_threads(files: usize) -> (r: usize)
    ensures
        r == (if files < 1 {
            1
        } else if files > 64 {
            64
        } else {
            files as int
        }),
{
    if files < 1 {
        1
    } else if files > 64 {
        64
    } else {
        files
    }
}

} // verus!
