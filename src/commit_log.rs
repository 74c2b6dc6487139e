use vstd::prelude::*;

use crate::value::{Value, ValueModel};

verus! {

/// How many committed entries are kept as history.
pub const HISTORY_LIMIT: usize = 10;

/// One key/value detail of a log entry.
#[derive(Debug, PartialEq)]
pub struct LogDetail {
    pub key: String,
    pub value: Value,
}

/// A completed mutating statement: the database, the command kind, and details.
#[derive(Debug, PartialEq)]
pub struct LogEntry {
    pub db: String,
    pub command: String,
    pub details: Vec<LogDetail>,
}

/// Model of a log entry.
pub ghost struct LogEntryModel {
    pub db: Seq<char>,
    pub command: Seq<char>,
    pub details: Seq<(Seq<char>, ValueModel)>,
}

impl View for LogDetail {
    type V = (Seq<char>, ValueModel);

    open spec fn view(&self) -> (Seq<char>, ValueModel) {
        (self.key@, self.value@)
    }
}

impl View for LogEntry {
    type V = LogEntryModel;

    open spec fn view(&self) -> LogEntryModel {
        LogEntryModel {
            db: self.db@,
            command: self.command@,
            details: self.details@.map_values(|d: LogDetail| d@),
        }
    }
}

/// Views of a list of entries.
pub open spec fn entries_view(s: Seq<LogEntry>) -> Seq<LogEntryModel> {
    s.map_values(|e: LogEntry| e@)
}

impl Clone for LogDetail {
    fn clone(&self) -> (r: Self)
        ensures
            r == *self,
    {
        LogDetail { key: self.key.clone(), value: self.value.clone() }
    }
}

impl Clone for LogEntry {
    fn clone(&self) -> (r: Self)
        ensures
            r@ == self@,
    {
        let mut details: Vec<LogDetail> = Vec::new();
        let mut i: usize = 0;
        while i < self.details.len()
            invariant
                i <= self.details@.len(),
                details@ == self.details@.subrange(0, i as int),
            decreases self.details@.len() - i,
        {
            details.push(self.details[i].clone());
            assert(details@ =~= self.details@.subrange(0, i + 1));
            i = i + 1;
        }
        assert(details@ =~= self.details@);
        let r = LogEntry { db: self.db.clone(), command: self.command.clone(), details };
        assert(r@.details =~= self@.details);
        r
    }
}

/// The last `HISTORY_LIMIT` entries of `s` (all of them when there are fewer).
pub open spec fn last_entries(s: Seq<LogEntryModel>) -> Seq<LogEntryModel> {
    if s.len() > HISTORY_LIMIT {
        s.subrange(s.len() - HISTORY_LIMIT, s.len() as int)
    } else {
        s
    }
}

/// Model of the log: pending entries, and the history kept from earlier commits.
pub ghost struct LogModel {
    pub pending: Seq<LogEntryModel>,
    pub history: Seq<LogEntryModel>,
}

/// Append-only log of completed mutating statements.
///
/// A commit hands out and clears the pending entries; the most recent
/// `HISTORY_LIMIT` committed entries stay as history.
pub struct LSMTreeStorage {
    segments: Vec<LogEntry>,
    history: Vec<LogEntry>,
}

impl View for LSMTreeStorage {
    type V = LogModel;

    closed spec fn view(&self) -> LogModel {
        LogModel { pending: entries_view(self.segments@), history: entries_view(self.history@) }
    }
}

/// A copy of a list of entries.
fn copy_entries(v: &Vec<LogEntry>, from: usize) -> (r: Vec<LogEntry>)
    requires
        from <= v@.len(),
    ensures
        entries_view(r@) == entries_view(v@).subrange(from as int, v@.len() as int),
{
    let mut r: Vec<LogEntry> = Vec::new();
    let mut i: usize = from;
    while i < v.len()
        invariant
            from <= i <= v@.len(),
            entries_view(r@) == entries_view(v@).subrange(from as int, i as int),
        decreases v@.len() - i,
    {
        let e = v[i].clone();
        let ghost prev = r@;
        r.push(e);
        assert(r@ == prev.push(e));
        assert(entries_view(r@) =~= entries_view(prev).push(e@));
        assert(entries_view(r@) =~= entries_view(v@).subrange(from as int, i + 1));
        i = i + 1;
    }
    r
}

impl LSMTreeStorage {
    /// An empty log.
    pub fn new() -> (r: LSMTreeStorage)
        ensures
            r@.pending == Seq::<LogEntryModel>::empty(),
            r@.history == Seq::<LogEntryModel>::empty(),
    {
        let r = LSMTreeStorage { segments: Vec::new(), history: Vec::new() };
        assert(r@.pending =~= Seq::<LogEntryModel>::empty());
        assert(r@.history =~= Seq::<LogEntryModel>::empty());
        r
    }

    /// Records a mutation event.
    pub fn log(&mut self, entry: LogEntry)
        ensures
            final(self)@ == (LogModel { pending: old(self)@.pending.push(entry@), ..old(self)@ }),
    {
        let ghost e = entry;
        self.segments.push(entry);
        assert(self@.pending =~= old(self)@.pending.push(e@));
    }

    /// The number of uncommitted entries.
    pub fn pending(&self) -> (r: usize)
        ensures
            r == self@.pending.len(),
    {
        self.segments.len()
    }

    /// A copy of the pending entries.
    pub fn snapshot(&self) -> (r: Vec<LogEntry>)
        ensures
            entries_view(r@) == self@.pending,
    {
        let r = copy_entries(&self.segments, 0);
        assert(entries_view(self.segments@).subrange(0, self.segments@.len() as int) =~= self@.pending);
        r
    }

    /// A copy of the history kept from earlier commits.
    pub fn history(&self) -> (r: Vec<LogEntry>)
        ensures
            entries_view(r@) == self@.history,
    {
        let r = copy_entries(&self.history, 0);
        assert(entries_view(self.history@).subrange(0, self.history@.len() as int) =~= self@.history);
        r
    }

    /// Hands out all pending entries and clears them; the most recent
    /// `HISTORY_LIMIT` committed entries, this batch included, stay as history.
    pub fn commit(&mut self) -> (r: Vec<LogEntry>)
        ensures
            entries_view(r@) == old(self)@.pending,
            final(self)@.pending == Seq::<LogEntryModel>::empty(),
            final(self)@.history == last_entries(old(self)@.history + old(self)@.pending),
    {
        let mut flushed: Vec<LogEntry> = Vec::new();
        std::mem::swap(&mut self.segments, &mut flushed);
        assert(self@.pending =~= Seq::<LogEntryModel>::empty());
        let mut all = copy_entries(&self.history, 0);
        assert(entries_view(all@) =~= old(self)@.history);
        let mut i: usize = 0;
        while i < flushed.len()
            invariant
                i <= flushed@.len(),
                entries_view(flushed@) == old(self)@.pending,
                self@.pending == Seq::<LogEntryModel>::empty(),
                entries_view(all@) == old(self)@.history + entries_view(flushed@).subrange(0, i as int),
            decreases flushed@.len() - i,
        {
            let e = flushed[i].clone();
            let ghost prev = all@;
            all.push(e);
            assert(all@ == prev.push(e));
            assert(entries_view(all@) =~= entries_view(prev).push(e@));
            assert(entries_view(all@) =~= old(self)@.history + entries_view(flushed@).subrange(0, i + 1));
            i = i + 1;
        }
        assert(entries_view(flushed@).subrange(0, i as int) =~= entries_view(flushed@));
        self.compact(all);
        flushed
    }

    /// Keeps only the last `HISTORY_LIMIT` of `all` as history.
    fn compact(&mut self, all: Vec<LogEntry>)
        ensures
            final(self)@ == (LogModel { history: last_entries(entries_view(all@)), ..old(self)@ }),
    {
        if all.len() > HISTORY_LIMIT {
            self.history = copy_entries(&all, all.len() - HISTORY_LIMIT);
        } else {
            self.history = all;
        }
    }
}

} // verus!
