//! The part sink: records of one table, in order, cut into parts that are
//! shipped with their index fragments and progress markers.
//!
//! The sink decides what is shipped, under which key, and in which order; the
//! shipping itself is done by whoever carries out its commands.

use vstd::prelude::*;

use crate::marker;
use crate::marker::{print_marker, progress_from, read_values, MarkerValues, Progress, ProgressView, Refusal};
use crate::primitives;
use crate::primitives::append_be;
use crate::text;
use crate::text::decimal_padded;

verus! {

// --------------------------------------------------------------------- keys

/// `<name>.<part>`, the part with five digits.
pub open spec fn numbered(name: Seq<char>, part: u32) -> Seq<char> {
    name + "."@ + text::padded_digits(part as nat, 5)
}

/// The key of a table's progress marker.
pub open spec fn progress_key_of(name: Seq<char>) -> Seq<char> {
    "progress/"@ + name + ".json"@
}

/// The key of an index fragment.
pub open spec fn fragment_key_of(name: Seq<char>, part: u32) -> Seq<char> {
    "idxfrag/"@ + numbered(name, part)
}

/// The key of a part.
pub fn part_key(name: &str, part: u32) -> (r: String)
    ensures
        r@ == numbered(name@, part),
{
    let mut key: String = name.to_owned();
    key.append(".");
    key.append(decimal_padded(part as u64, 5).as_str());
    proof {
        assert(key@ =~= numbered(name@, part));
    }
    key
}

/// The key of an index fragment.
pub fn fragment_key(name: &str, part: u32) -> (r: String)
    ensures
        r@ == fragment_key_of(name@, part),
{
    let mut key = String::new();
    key.append("idxfrag/");
    key.append(part_key(name, part).as_str());
    proof {
        assert(key@ =~= fragment_key_of(name@, part));
    }
    key
}

/// The key of a table's progress marker.
pub fn progress_key(name: &str) -> (r: String)
    ensures
        r@ == progress_key_of(name@),
{
    let mut key = String::new();
    key.append("progress/");
    key.append(name);
    key.append(".json");
    proof {
        assert(key@ =~= progress_key_of(name@));
    }
    key
}

/// The key of a table's index.
pub fn index_key(name: &str) -> (r: String)
    ensures
        r@ == name@ + ".idx"@,
{
    let mut key: String = name.to_owned();
    key.append(".idx");
    key
}

// --------------------------------------------------------------------- sink

/// Something to be done with the object store. Commands are carried out one
/// after the other; the first that fails ends the export.
#[derive(Debug)]
pub enum Command {
    /// Start to store `body` in the background.
    Start { key: String, body: Vec<u8> },
    /// Wait for the oldest part that is still being stored.
    AwaitOldest,
    /// Store `body`.
    Put { key: String, body: Vec<u8> },
}

/// Something to be done with the object store.
pub enum CommandView {
    Start { key: Seq<char>, body: Seq<u8> },
    AwaitOldest,
    Put { key: Seq<char>, body: Seq<u8> },
}

impl View for Command {
    type V = CommandView;

    open spec fn view(&self) -> CommandView {
        match *self {
            Command::Start { key, body } => CommandView::Start { key: key@, body: body@ },
            Command::AwaitOldest => CommandView::AwaitOldest,
            Command::Put { key, body } => CommandView::Put { key: key@, body: body@ },
        }
    }
}

/// What the commands are.
pub open spec fn commands_view(v: Seq<Command>) -> Seq<CommandView> {
    Seq::new(v.len(), |i: int| v[i]@)
}

/// A part that is being stored: what is to be stored once it is.
#[derive(Debug)]
pub struct Pending {
    /// The part's index fragment.
    pub fragment: Vec<u8>,
    /// The progress marker after the part.
    pub marker: Vec<u8>,
}

/// A part that is being stored: what is to be stored once it is.
pub struct PendingView {
    pub fragment: Seq<u8>,
    pub marker: Seq<u8>,
}

impl View for Pending {
    type V = PendingView;

    open spec fn view(&self) -> PendingView {
        PendingView { fragment: self.fragment@, marker: self.marker@ }
    }
}

/// What is pending.
pub open spec fn pending_view(v: Seq<Pending>) -> Seq<PendingView> {
    Seq::new(v.len(), |i: int| v[i]@)
}

/// Why a table cannot be exported.
#[derive(Debug)]
pub enum SinkError {
    /// The marker is no JSON, or cannot be written as such.
    Json(serde_json::Error),
    /// The marker is not continued from.
    Refused(Refusal),
}

/// The records of one table on their way to the store.
#[derive(Debug)]
pub struct Sink {
    /// The table's name, with the shard.
    pub name: String,
    /// The size at which a part is shipped.
    pub part_bytes: usize,
    /// Every so manieth record has an index entry.
    pub index_every: u64,
    /// The bytes of the part that is being filled.
    pub buf: Vec<u8>,
    /// The index entries of that part.
    pub idx_frag: Vec<u8>,
    /// The number of that part.
    pub part: u32,
    /// The number of records so far.
    pub count: u64,
    /// The number of bytes so far.
    pub global_off: u64,
    /// The last key pushed.
    pub last_key: Option<Vec<u8>>,
    /// The exact size of each part before this one.
    pub sizes: Vec<u64>,
    /// The parts that are still being stored, the oldest first. Their
    /// fragments and markers follow only once the parts are stored, for an
    /// export is taken up again after the part that its marker names.
    pub pending: Vec<Pending>,
}

/// The records of one table on their way to the store.
#[verifier::ext_equal]
pub struct SinkView {
    pub name: Seq<char>,
    pub part_bytes: usize,
    pub index_every: u64,
    pub buf: Seq<u8>,
    pub idx_frag: Seq<u8>,
    pub part: u32,
    pub count: u64,
    pub global_off: u64,
    pub last_key: Option<Seq<u8>>,
    pub sizes: Seq<u64>,
    pub pending: Seq<PendingView>,
}

impl View for Sink {
    type V = SinkView;

    open spec fn view(&self) -> SinkView {
        SinkView {
            name: self.name@,
            part_bytes: self.part_bytes,
            index_every: self.index_every,
            buf: self.buf@,
            idx_frag: self.idx_frag@,
            part: self.part,
            count: self.count,
            global_off: self.global_off,
            last_key: marker::key_view(self.last_key),
            sizes: self.sizes@,
            pending: pending_view(self.pending@),
        }
    }
}

/// A sink that goes on after `p`.
pub open spec fn resumed(
    name: Seq<char>,
    part_bytes: usize,
    index_every: u64,
    p: ProgressView,
) -> SinkView {
    SinkView {
        name,
        part_bytes,
        index_every,
        buf: Seq::empty(),
        idx_frag: Seq::empty(),
        part: p.part,
        count: p.count,
        global_off: p.global_off,
        last_key: p.last_key,
        sizes: p.sizes,
        pending: Seq::empty(),
    }
}

/// Nothing exported yet.
pub open spec fn no_progress() -> ProgressView {
    ProgressView {
        part: 0,
        count: 0,
        global_off: 0,
        last_key: None,
        sizes: Seq::empty(),
        done: false,
    }
}

/// Why a table cannot be opened.
pub enum OpenFault {
    /// Its marker is no JSON.
    Json,
    /// Its marker is not continued from.
    Refused(Refusal),
}

/// The bytes of a marker, if there are any.
pub open spec fn body_view(body: Option<Vec<u8>>) -> Option<Seq<u8>> {
    match body {
        Some(b) => Some(b@),
        None => None,
    }
}

/// The sink of a table with this progress marker, for the database at `block`,
/// and whether the table is complete. A marker that is missing or empty has the
/// table start afresh.
pub open spec fn opened(
    body: Option<Seq<u8>>,
    name: Seq<char>,
    part_bytes: usize,
    index_every: u64,
    block: u64,
) -> Result<(SinkView, bool), OpenFault> {
    match body {
        Some(b) => if b.len() == 0 {
            Ok((resumed(name, part_bytes, index_every, no_progress()), false))
        } else {
            match marker::parsed(b) {
                None => Err(OpenFault::Json),
                Some(found) => match marker::progress_of(marker::values_in(found), block) {
                    Ok(p) => Ok((resumed(name, part_bytes, index_every, p), p.done)),
                    Err(e) => Err(OpenFault::Refused(e)),
                },
            }
        },
        None => Ok((resumed(name, part_bytes, index_every, no_progress()), false)),
    }
}

impl SinkView {
    /// The sink after a record.
    pub open spec fn pushed(self, rec: Seq<u8>, key: Seq<u8>) -> SinkView {
        SinkView {
            buf: self.buf + rec,
            idx_frag: if self.count % self.index_every == 0 {
                self.idx_frag + key + primitives::be_bytes(self.global_off as nat, 8)
            } else {
                self.idx_frag
            },
            count: (self.count + 1) as u64,
            global_off: (self.global_off + rec.len()) as u64,
            last_key: Some(key),
            ..self
        }
    }

    /// The progress that a marker says once the part being filled is shipped.
    pub open spec fn progress(self, done: bool) -> ProgressView {
        ProgressView {
            part: self.part,
            count: self.count,
            global_off: self.global_off,
            last_key: self.last_key,
            sizes: self.sizes,
            done,
        }
    }

    /// The sink once the part being filled is on its way, with `marker` for
    /// its marker.
    pub open spec fn cut(self, marker: Seq<u8>) -> SinkView {
        SinkView {
            buf: Seq::empty(),
            idx_frag: Seq::empty(),
            part: (self.part + 1) as u32,
            sizes: self.sizes.push(self.buf.len() as u64),
            pending: self.pending.push(PendingView { fragment: self.idx_frag, marker }),
            ..self
        }
    }

    /// What is done when the oldest pending part is stored: its fragment is
    /// stored, then its marker.
    pub open spec fn completion(self) -> Seq<CommandView> {
        let oldest = self.pending[0];
        let part = (self.part - self.pending.len()) as u32;
        seq![
            CommandView::AwaitOldest,
            CommandView::Put { key: fragment_key_of(self.name, part), body: oldest.fragment },
            CommandView::Put { key: progress_key_of(self.name), body: oldest.marker },
        ]
    }

    /// The sink without its oldest pending part.
    pub open spec fn without_oldest(self) -> SinkView {
        SinkView { pending: self.pending.drop_first(), ..self }
    }

    /// What is done until at most `max_left` parts are pending.
    pub open spec fn reaping(self, max_left: nat) -> Seq<CommandView>
        decreases self.pending.len(),
    {
        if self.pending.len() <= max_left {
            Seq::empty()
        } else {
            self.completion() + self.without_oldest().reaping(max_left)
        }
    }

    /// The sink when at most `max_left` parts are pending.
    pub open spec fn reaped(self, max_left: nat) -> SinkView
        decreases self.pending.len(),
    {
        if self.pending.len() <= max_left {
            self
        } else {
            self.without_oldest().reaped(max_left)
        }
    }
}

impl Sink {
    /// A sink that goes on after `p`.
    pub fn resume(name: &str, part_bytes: usize, index_every: u64, p: Progress) -> (r: Self)
        ensures
            r@ == resumed(name@, part_bytes, index_every, p@),
            p@.sizes.len() == p.part ==> r.well_formed(),
    {
        let pending: Vec<Pending> = Vec::new();
        assert(pending_view(pending@) =~= Seq::empty());
        Sink {
            name: name.to_owned(),
            part_bytes,
            index_every,
            buf: Vec::new(),
            idx_frag: Vec::new(),
            part: p.part,
            count: p.count,
            global_off: p.global_off,
            last_key: p.last_key,
            sizes: p.sizes,
            pending,
        }
    }

    /// A sink that goes on after a marker that was found to hold `values`, for
    /// the database at `block`; and whether the table is complete.
    pub fn open_at(
        values: &MarkerValues,
        name: &str,
        part_bytes: usize,
        index_every: u64,
        block: u64,
    ) -> (r: Result<(Self, bool), Refusal>)
        ensures
            match r {
                Ok((sink, done)) => {
                    &&& marker::progress_of(values@, block) is Ok
                    &&& sink@ == resumed(
                        name@,
                        part_bytes,
                        index_every,
                        marker::progress_of(values@, block)->Ok_0,
                    )
                    &&& done == marker::progress_of(values@, block)->Ok_0.done
                    &&& sink.well_formed()
                },
                Err(e) => marker::progress_of(values@, block) == Err::<ProgressView, Refusal>(e),
            },
    {
        match progress_from(values, block) {
            Ok(p) => {
                let done: bool = p.done;
                Ok((Sink::resume(name, part_bytes, index_every, p), done))
            },
            Err(e) => Err(e),
        }
    }

    /// Opens the sink of a table, from its progress marker if it has one;
    /// and says whether the table is complete. A marker that was written for
    /// another height is refused: the source changed during the export.
    pub fn open(
        body: &Option<Vec<u8>>,
        name: &str,
        part_bytes: usize,
        index_every: u64,
        block: u64,
    ) -> (r: Result<(Self, bool), SinkError>)
        ensures
            match (r, opened(body_view(*body), name@, part_bytes, index_every, block)) {
                (Ok((sink, done)), Ok((v, d))) => sink@ == v && done == d && sink.well_formed(),
                (Err(SinkError::Json(_)), Err(OpenFault::Json)) => true,
                (Err(SinkError::Refused(e)), Err(OpenFault::Refused(f))) => e == f,
                _ => false,
            },
    {
        if let Some(b) = body {
            if b.len() > 0 {
                let values = match read_values(b.as_slice()) {
                    Ok(values) => values,
                    Err(e) => {
                        return Err(SinkError::Json(e));
                    },
                };
                return match Sink::open_at(&values, name, part_bytes, index_every, block) {
                    Ok(opened) => Ok(opened),
                    Err(e) => Err(SinkError::Refused(e)),
                };
            }
        }
        let fresh = Progress {
            part: 0,
            count: 0,
            global_off: 0,
            last_key: None,
            sizes: Vec::new(),
            done: false,
        };
        assert(fresh@ =~= no_progress());
        Ok((Sink::resume(name, part_bytes, index_every, fresh), false))
    }

    /// Takes a record in.
    pub fn push(&mut self, rec: &[u8], key: &[u8])
        requires
            old(self).index_every > 0,
            old(self).count < u64::MAX,
            old(self).global_off + rec@.len() <= u64::MAX,
        ensures
            final(self)@ == old(self)@.pushed(rec@, key@),
            old(self).well_formed() ==> final(self).well_formed(),
    {
        if self.count % self.index_every == 0 {
            self.idx_frag.extend_from_slice(key);
            append_be(&mut self.idx_frag, self.global_off as u128, 8);
        }
        self.buf.extend_from_slice(rec);
        self.global_off = self.global_off + rec.len() as u64;
        self.count = self.count + 1;
        let mut last: Vec<u8> = Vec::new();
        last.extend_from_slice(key);
        self.last_key = Some(last);
        assert(self@ =~= old(self)@.pushed(rec@, key@));
    }

    /// Whether the part being filled is to be shipped.
    pub fn part_full(&self) -> (r: bool)
        ensures
            r == (self.buf@.len() >= self.part_bytes),
    {
        self.buf.len() >= self.part_bytes
    }
}

// ----------------------------------------------------------------- shipping

/// `b` is a marker for this progress.
pub open spec fn says_progress(b: Seq<u8>, block: u64, p: ProgressView) -> bool {
    &&& b == marker::marker_bytes(block, p)
    &&& b.len() > 0
    &&& marker::parsed(b) == Some(Some(marker::marker_members(block, p)))
}

/// The part being filled, if it has a record, was sent on its way by `commands`,
/// which leave at most one part pending.
pub open spec fn shipped(
    before: SinkView,
    block: u64,
    commands: Seq<CommandView>,
    after: SinkView,
) -> bool {
    if before.buf.len() == 0 {
        commands == Seq::<CommandView>::empty() && after == before
    } else {
        exists|m: Seq<u8>|
            {
                &&& #[trigger] says_progress(m, block, before.cut(m).progress(false))
                &&& commands == seq![
                    CommandView::Start {
                        key: numbered(before.name, before.part),
                        body: before.buf,
                    },
                ] + before.cut(m).reaping(1)
                &&& after == before.cut(m).reaped(1)
            }
    }
}

/// The table was marked as complete by `commands`, after every pending part.
pub open spec fn closed_with(
    before: SinkView,
    block: u64,
    commands: Seq<CommandView>,
    after: SinkView,
) -> bool {
    exists|d: Seq<u8>|
        {
            &&& #[trigger] says_progress(d, block, before.progress(true))
            &&& commands == before.reaping(0).push(
                CommandView::Put { key: progress_key_of(before.name), body: d },
            )
            &&& after == before.reaped(0)
        }
}

/// Both, the one after the other.
pub open spec fn finished_with(
    before: SinkView,
    block: u64,
    commands: Seq<CommandView>,
    after: SinkView,
) -> bool {
    exists|first: Seq<CommandView>, mid: SinkView, second: Seq<CommandView>|
        {
            &&& #[trigger] shipped(before, block, first, mid)
            &&& #[trigger] closed_with(mid, block, second, after)
            &&& commands == first + second
        }
}

proof fn lemma_commands_push(v: Seq<Command>, c: Command)
    ensures
        commands_view(v.push(c)) == commands_view(v).push(c@),
{
    assert(commands_view(v.push(c)) =~= commands_view(v).push(c@));
}

fn copy_key(key: &Option<Vec<u8>>) -> (r: Option<Vec<u8>>)
    ensures
        marker::key_view(r) == marker::key_view(*key),
{
    match key {
        Some(k) => {
            let mut copy: Vec<u8> = Vec::new();
            copy.extend_from_slice(k.as_slice());
            assert(copy@ =~= k@);
            Some(copy)
        },
        None => None,
    }
}

impl Sink {
    /// No more parts are pending than were shipped, and the size of each that
    /// was is on record.
    pub open spec fn well_formed(self) -> bool {
        &&& self.pending@.len() <= self.part
        &&& self.sizes@.len() == self.part
    }

    fn progress(&self, done: bool) -> (r: Progress)
        ensures
            r@ == self@.progress(done),
    {
        let mut sizes: Vec<u64> = Vec::new();
        sizes.extend_from_slice(self.sizes.as_slice());
        assert(sizes@ =~= self.sizes@);
        let p = Progress {
            part: self.part,
            count: self.count,
            global_off: self.global_off,
            last_key: copy_key(&self.last_key),
            sizes,
            done,
        };
        assert(p@ =~= self@.progress(done));
        p
    }

    /// Waits for pending parts until at most `max_left` are left, and stores
    /// the fragment and the marker of each as it is stored.
    fn reap(&mut self, max_left: usize, out: &mut Vec<Command>)
        requires
            old(self).well_formed(),
        ensures
            final(self).well_formed(),
            final(self)@ == old(self)@.reaped(max_left as nat),
            commands_view(final(out)@) == commands_view(old(out)@) + old(self)@.reaping(
                max_left as nat,
            ),
    {
        assert(commands_view(out@) =~= commands_view(out@) + Seq::<CommandView>::empty());
        while self.pending.len() > max_left
            invariant
                self.well_formed(),
                old(self)@.reaped(max_left as nat) == self@.reaped(max_left as nat),
                commands_view(old(out)@) + old(self)@.reaping(max_left as nat) == commands_view(
                    out@,
                ) + self@.reaping(max_left as nat),
            decreases self.pending@.len(),
        {
            let ghost before = self@;
            let ghost listed = out@;
            let oldest = self.pending.remove(0);
            assert(oldest@ == before.pending[0]);
            assert(self@ =~= before.without_oldest());
            let done_part: u32 = self.part - self.pending.len() as u32 - 1;
            let first = Command::AwaitOldest;
            let second = Command::Put {
                key: fragment_key(self.name.as_str(), done_part),
                body: oldest.fragment,
            };
            let third = Command::Put {
                key: progress_key(self.name.as_str()),
                body: oldest.marker,
            };
            proof {
                lemma_commands_push(listed, first);
                lemma_commands_push(listed.push(first), second);
                lemma_commands_push(listed.push(first).push(second), third);
                assert(before.completion() =~= seq![first@, second@, third@]);
            }
            out.push(first);
            out.push(second);
            out.push(third);
            proof {
                let rest = self@.reaping(max_left as nat);
                assert(commands_view(out@) =~= commands_view(listed) + before.completion());
                assert(before.reaping(max_left as nat) == before.completion() + rest);
                assert(commands_view(listed) + (before.completion() + rest) =~= commands_view(out@)
                    + rest);
            }
        }
        assert(commands_view(out@) + Seq::<CommandView>::empty() =~= commands_view(out@));
    }

    /// Sends the part being filled on its way, if it has a record.
    fn ship(&mut self, block: u64, out: &mut Vec<Command>) -> (r: Result<(), serde_json::Error>)
        requires
            old(self).well_formed(),
            old(self).buf@.len() > 0 ==> old(self).part < u32::MAX,
            commands_view(old(out)@) == Seq::<CommandView>::empty(),
        ensures
            final(self).well_formed(),
            r is Ok,
            shipped(old(self)@, block, commands_view(final(out)@), final(self)@),
    {
        if self.buf.len() == 0 {
            return Ok(());
        }
        let ghost before = self@;
        let mut p: Progress = self.progress(false);
        p.part = self.part + 1;
        p.sizes.push(self.buf.len() as u64);
        let marker = match print_marker(block, &p) {
            Ok(b) => b,
            Err(e) => {
                return Err(e);
            },
        };
        let ghost m = marker@;
        assert(p@ =~= before.cut(m).progress(false));
        assert(says_progress(m, block, before.cut(m).progress(false)));
        let mut body: Vec<u8> = Vec::new();
        let mut fragment: Vec<u8> = Vec::new();
        std::mem::swap(&mut body, &mut self.buf);
        std::mem::swap(&mut fragment, &mut self.idx_frag);
        self.sizes.push(body.len() as u64);
        let start = Command::Start { key: part_key(self.name.as_str(), self.part), body };
        proof {
            lemma_commands_push(out@, start);
            assert(commands_view(out@.push(start)) =~= seq![start@]);
        }
        out.push(start);
        let entry = Pending { fragment, marker };
        assert(pending_view(self.pending@.push(entry)) =~= pending_view(self.pending@).push(entry@));
        self.pending.push(entry);
        self.part = self.part + 1;
        assert(self@ =~= before.cut(m));
        self.reap(1, out);
        Ok(())
    }

    /// Marks the table as complete, after every pending part.
    fn close(&mut self, block: u64, out: &mut Vec<Command>) -> (r: Result<(), serde_json::Error>)
        requires
            old(self).well_formed(),
            commands_view(old(out)@) == Seq::<CommandView>::empty(),
        ensures
            final(self).well_formed(),
            r is Ok,
            closed_with(old(self)@, block, commands_view(final(out)@), final(self)@),
    {
        let ghost before = self@;
        let p: Progress = self.progress(true);
        let marker = match print_marker(block, &p) {
            Ok(b) => b,
            Err(e) => {
                return Err(e);
            },
        };
        assert(says_progress(marker@, block, before.progress(true)));
        self.reap(0, out);
        assert(commands_view(out@) =~= before.reaping(0));
        let put = Command::Put { key: progress_key(self.name.as_str()), body: marker };
        proof {
            lemma_reaped(before, 0);
            lemma_commands_push(out@, put);
        }
        out.push(put);
        Ok(())
    }

    /// What is to be done to ship the part being filled, and, when the table
    /// is `done`, to mark it so. The walk goes on while parts are stored. That
    /// can always be said: markers are values that can be printed.
    pub fn flush(&mut self, block: u64, done: bool) -> (r: Result<Vec<Command>, serde_json::Error>)
        requires
            old(self).well_formed(),
            old(self).buf@.len() > 0 ==> old(self).part < u32::MAX,
        ensures
            final(self).well_formed(),
            match r {
                Ok(v) => if done {
                    finished_with(old(self)@, block, commands_view(v@), final(self)@)
                } else {
                    shipped(old(self)@, block, commands_view(v@), final(self)@)
                },
                Err(_) => false,
            },
    {
        let mut out: Vec<Command> = Vec::new();
        assert(commands_view(out@) =~= Seq::empty());
        match self.ship(block, &mut out) {
            Ok(_) => {},
            Err(e) => {
                return Err(e);
            },
        }
        if done {
            let ghost mid = self@;
            let ghost first = out@;
            let mut last: Vec<Command> = Vec::new();
            assert(commands_view(last@) =~= Seq::empty());
            match self.close(block, &mut last) {
                Ok(_) => {},
                Err(e) => {
                    return Err(e);
                },
            }
            let ghost second = last@;
            out.append(&mut last);
            proof {
                assert(commands_view(out@) =~= commands_view(first) + commands_view(second));
                assert(shipped(old(self)@, block, commands_view(first), mid));
                assert(closed_with(mid, block, commands_view(second), self@));
            }
        }
        Ok(out)
    }
}

/// Reaping changes nothing but what is pending.
pub proof fn lemma_reaped(s: SinkView, max_left: nat)
    ensures
        s.reaped(max_left) == (SinkView { pending: s.reaped(max_left).pending, ..s }),
        s.reaped(max_left).pending.len() <= max_left || s.reaped(max_left).pending.len() == 0,
        s.pending.len() <= max_left ==> s.reaped(max_left) == s,
        s.reaped(max_left).pending.len() <= s.pending.len(),
    decreases s.pending.len(),
{
    if s.pending.len() > max_left {
        lemma_reaped(s.without_oldest(), max_left);
    }
}

/// All fragments one after the other, where none is missing.
pub open spec fn joined(fragments: Seq<Option<Vec<u8>>>) -> Seq<u8>
    decreases fragments.len(),
{
    if fragments.len() == 0 {
        Seq::empty()
    } else {
        joined(fragments.drop_last()) + fragments.last()->Some_0@
    }
}

/// The index of a table out of the fragments of its parts, or the first part
/// whose fragment is missing.
pub fn assemble_index(fragments: &Vec<Option<Vec<u8>>>) -> (r: Result<Vec<u8>, usize>)
    ensures
        match r {
            Ok(idx) => {
                &&& forall|i: int| 0 <= i < fragments@.len() ==> (#[trigger] fragments@[i]) is Some
                &&& idx@ == joined(fragments@)
            },
            Err(p) => {
                &&& p < fragments@.len()
                &&& fragments@[p as int] is None
                &&& forall|i: int| 0 <= i < p ==> (#[trigger] fragments@[i]) is Some
            },
        },
{
    let mut idx: Vec<u8> = Vec::new();
    let mut i: usize = 0;
    while i < fragments.len()
        invariant
            i <= fragments@.len(),
            idx@ == joined(fragments@.take(i as int)),
            forall|j: int| 0 <= j < i ==> (#[trigger] fragments@[j]) is Some,
        decreases fragments@.len() - i,
    {
        assert(fragments@.take(i + 1).drop_last() =~= fragments@.take(i as int));
        match &fragments[i] {
            Some(f) => {
                let ghost before = idx@;
                idx.extend_from_slice(f.as_slice());
                assert(idx@ =~= before + f@);
            },
            None => {
                return Err(i);
            },
        }
        i = i + 1;
    }
    assert(fragments@.take(i as int) =~= fragments@);
    Ok(idx)
}

} // verus!
