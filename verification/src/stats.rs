//! Execution statistics and the result record of a command. The statistics
//! track, per artifact, the intervals whose computation was actually needed
//! and an approximate memory footprint of each cache; they are gathered only
//! when the engine runs in debug mode.

use vstd::prelude::*;
use vstd::string::*;
use crate::base::{DistinctId, FileId, FilterId, Id, Interval, TagId};
use crate::text::{dec_string, spec_dec};

verus! {

/// The sum of the entry counts of one interval table.
pub open spec fn table_total(t: Seq<(usize, Vec<Interval>)>) -> int
    decreases t.len(),
{
    if t.len() == 0 {
        0
    } else {
        table_total(t.drop_last()) + t.last().1@.len()
    }
}

/// Per artifact, the intervals that required computation, grouped by kind.
/// Each table maps an identifier number to the intervals recorded for it.
#[derive(Debug)]
pub struct IntervalStats {
    pub distincts: Vec<(usize, Vec<Interval>)>,
    pub files: Vec<(usize, Vec<Interval>)>,
    pub filters: Vec<(usize, Vec<Interval>)>,
    pub tags: Vec<(usize, Vec<Interval>)>,
}

/// The index of the entry with the given identifier number, if any.
fn table_find(table: &Vec<(usize, Vec<Interval>)>, num: usize) -> (r: Option<usize>)
    ensures
        match r {
            Some(i) => i < table@.len() && table@[i as int].0 == num,
            None => true,
        },
{
    let mut i: usize = 0;
    loop
        invariant
            i <= table@.len(),
        decreases table@.len() - i,
    {
        if i == table.len() {
            return None;
        }
        if table[i].0 == num {
            return Some(i);
        }
        i = i + 1;
    }
}

/// Appends one interval to the table entry of the given identifier number,
/// creating the entry on first touch.
fn table_push(table: &mut Vec<(usize, Vec<Interval>)>, num: usize, interval: Interval)
    ensures
        table_total(final(table)@) == table_total(old(table)@) + 1,
{
    match table_find(table, num) {
        Some(i) => {
            let (key, mut list) = table.remove(i);
            list.push(interval);
            let ghost entry1 = (key, list);
            table.insert(i, (key, list));
            proof {
                assert(table@ =~= old(table)@.update(i as int, entry1));
                assert(entry1.1@.len() == old(table)@[i as int].1@.len() + 1);
                lemma_table_total_update(old(table)@, i as int, table@);
            }
        }
        None => {
            let mut fresh: Vec<Interval> = Vec::new();
            fresh.push(interval);
            table.push((num, fresh));
            proof {
                assert(table@.drop_last() =~= old(table)@);
            }
        }
    }
}

/// Replacing one entry with one holding one more interval raises the total by one.
proof fn lemma_table_total_update(t0: Seq<(usize, Vec<Interval>)>, i: int, t1: Seq<(usize, Vec<Interval>)>)
    requires
        0 <= i < t0.len(),
        t1.len() == t0.len(),
        forall|j: int| 0 <= j < t0.len() && j != i ==> t1[j] == t0[j],
        t1[i].1@.len() == t0[i].1@.len() + 1,
    ensures
        table_total(t1) == table_total(t0) + 1,
    decreases t0.len(),
{
    if i == t0.len() - 1 {
        assert(t1.drop_last() =~= t0.drop_last());
    } else {
        lemma_table_total_update(t0.drop_last(), i, t1.drop_last());
    }
}

impl IntervalStats {
    /// The number of intervals recorded over all artifacts.
    pub open spec fn spec_total(self) -> int {
        table_total(self.distincts@) + table_total(self.files@) + table_total(self.filters@)
            + table_total(self.tags@)
    }

    pub fn new() -> (r: IntervalStats)
        ensures
            r.spec_total() == 0,
    {
        IntervalStats { distincts: Vec::new(), files: Vec::new(), filters: Vec::new(), tags: Vec::new() }
    }

    /// Records one computed interval for the artifact.
    pub fn add(&mut self, id: Id, interval: Interval)
        ensures
            final(self).spec_total() == old(self).spec_total() + 1,
    {
        match id {
            Id::Distinct(DistinctId(n)) => table_push(&mut self.distincts, n, interval),
            Id::File(FileId(n)) => table_push(&mut self.files, n, interval),
            Id::Filter(FilterId(n)) => table_push(&mut self.filters, n, interval),
            Id::Tag(TagId(n)) => table_push(&mut self.tags, n, interval),
        }
    }

    /// The number of intervals recorded over all artifacts.
    pub fn total(&self) -> (r: usize)
        ensures
            r as int == self.spec_total() || r == usize::MAX,
    {
        let a = count_table(&self.distincts);
        let b = count_table(&self.files);
        let c = count_table(&self.filters);
        let d = count_table(&self.tags);
        a.saturating_add(b).saturating_add(c).saturating_add(d)
    }
}

/// Counts the intervals of one table, saturating at the top of `usize`.
fn count_table(table: &Vec<(usize, Vec<Interval>)>) -> (r: usize)
    ensures
        r as int == table_total(table@) || r == usize::MAX,
{
    let mut acc: usize = 0;
    let mut i: usize = 0;
    loop
        invariant
            i <= table@.len(),
            acc as int == table_total(table@.take(i as int)) || acc == usize::MAX,
        decreases table@.len() - i,
    {
        if i == table.len() {
            proof {
                assert(table@.take(i as int) =~= table@);
            }
            return acc;
        }
        acc = acc.saturating_add(table[i].1.len());
        proof {
            assert(table@.take(i + 1 as int).drop_last() =~= table@.take(i as int));
        }
        i = i + 1;
    }
}

/// Per artifact, the current approximate memory footprint of its cache,
/// in characters of cached text (bitset caches count their set bits).
#[derive(Debug)]
pub struct SizeStats {
    pub distincts: Vec<(usize, usize)>,
    pub files: Vec<(usize, usize)>,
    pub filters: Vec<(usize, usize)>,
    pub tags: Vec<(usize, usize)>,
}

/// Stores the current size for the identifier number, overwriting an earlier one.
fn size_store(table: &mut Vec<(usize, usize)>, num: usize, size: usize) {
    let mut i: usize = 0;
    loop
        invariant
            i <= table@.len(),
        decreases table@.len() - i,
    {
        if i == table.len() {
            break;
        }
        if table[i].0 == num {
            let _ = table.remove(i);
            table.insert(i, (num, size));
            return;
        }
        i = i + 1;
    }
    table.push((num, size));
}

impl SizeStats {
    pub fn new() -> SizeStats {
        SizeStats { distincts: Vec::new(), files: Vec::new(), filters: Vec::new(), tags: Vec::new() }
    }

    /// Records the current footprint of the artifact's cache.
    pub fn add(&mut self, id: Id, size: usize) {
        match id {
            Id::Distinct(DistinctId(n)) => size_store(&mut self.distincts, n, size),
            Id::File(FileId(n)) => size_store(&mut self.files, n, size),
            Id::Filter(FilterId(n)) => size_store(&mut self.filters, n, size),
            Id::Tag(TagId(n)) => size_store(&mut self.tags, n, size),
        }
    }
}

/// The statistics bag of one command: a recording one in debug mode, a no-op
/// sink otherwise.
#[derive(Debug)]
pub struct Stats {
    pub intervals: Option<IntervalStats>,
    pub sizes: Option<SizeStats>,
}

impl Stats {
    pub fn enabled() -> (r: Stats)
        ensures
            r.intervals is Some,
            r.sizes is Some,
            r.intervals->Some_0.spec_total() == 0,
    {
        Stats { intervals: Some(IntervalStats::new()), sizes: Some(SizeStats::new()) }
    }

    pub fn disabled() -> (r: Stats)
        ensures
            r.intervals is None,
            r.sizes is None,
    {
        Stats { intervals: None, sizes: None }
    }

    /// Records one computed interval, when recording is on.
    pub fn add_interval(&mut self, id: Id, interval: Interval)
        ensures
            old(self).intervals is Some ==> final(self).intervals is Some
                && final(self).intervals->Some_0.spec_total()
                    == old(self).intervals->Some_0.spec_total() + 1,
            old(self).intervals is None ==> final(self).intervals is None,
            final(self).sizes == old(self).sizes,
    {
        match &mut self.intervals {
            Some(intervals) => intervals.add(id, interval),
            None => (),
        }
    }

    /// Records a cache footprint, when recording is on.
    pub fn add_size(&mut self, id: Id, size: usize)
        ensures
            final(self).intervals == old(self).intervals,
            old(self).sizes is None ==> final(self).sizes is None,
            old(self).sizes is Some ==> final(self).sizes is Some,
    {
        match &mut self.sizes {
            Some(sizes) => sizes.add(id, size),
            None => (),
        }
    }

    /// The number of intervals recorded, zero when recording is off.
    pub fn interval_total(&self) -> (r: usize)
        ensures
            self.intervals is Some ==> r as int == self.intervals->Some_0.spec_total()
                || r == usize::MAX,
            self.intervals is None ==> r == 0,
    {
        match &self.intervals {
            Some(intervals) => intervals.total(),
            None => 0,
        }
    }
}

/// What one command hands back: the identifier it registered (if any), the
/// rendered output lines, and the statistics gathered while running.
#[derive(Debug)]
pub struct Output {
    pub id: Option<Id>,
    pub lines: Vec<String>,
    pub stats: Stats,
}

impl Output {
    /// An output holding one confirmation message.
    pub fn with_message(id: Option<Id>, message: String) -> (r: Output)
        ensures
            r.id == id,
            r.lines@.len() == 1,
            r.lines@[0]@ == message@,
            r.stats.intervals is None,
    {
        let mut lines: Vec<String> = Vec::new();
        lines.push(message);
        Output { id, lines, stats: Stats::disabled() }
    }

    /// An output holding rendered result lines and the run's statistics.
    pub fn with_results(lines: Vec<String>, stats: Stats) -> (r: Output)
        ensures
            r.id is None,
            r.lines == lines,
            r.stats == stats,
    {
        Output { id: None, lines, stats }
    }
}

/// The rendering of one identifier number table as text lines: an opening
/// `name: {` line, one line per identifier in ascending numeric order, and a
/// closing brace; nothing when the table is empty.
fn render_sizes(out: &mut Vec<String>, name: &str, kind: &str, table: &Vec<(usize, usize)>) {
    if table.len() == 0 {
        return;
    }
    let mut header = String::from_str(name);
    header.append(": {");
    out.push(header);
    let mut printed: usize = 0;
    let mut bound: usize = 0;
    // walk identifiers in ascending order; each pass prints the least
    // unprinted number, so the output is sorted even if the table is not
    while printed < table.len()
        invariant
            printed <= table@.len(),
        decreases table@.len() - printed,
    {
        let mut best: usize = usize::MAX;
        let mut best_size: usize = 0;
        let mut found: bool = false;
        let mut i: usize = 0;
        while i < table.len()
            invariant
                i <= table@.len(),
            decreases table@.len() - i,
        {
            if table[i].0 >= bound && (!found || table[i].0 < best) {
                best = table[i].0;
                best_size = table[i].1;
                found = true;
            }
            i = i + 1;
        }
        if !found {
            break;
        }
        let mut line = String::from_str("  ");
        line.append(kind);
        line.append("(");
        let num = dec_string(best);
        line.append(num.as_str());
        line.append("): ");
        let sz = dec_string(best_size);
        line.append(sz.as_str());
        line.append(" chars");
        out.push(line);
        printed = printed + 1;
        if best == usize::MAX {
            break;
        }
        bound = best + 1;
    }
    out.push(String::from_str("}"));
}

/// The rendering of one interval table, as `render_sizes` but with the list of
/// recorded intervals per identifier.
fn render_intervals(out: &mut Vec<String>, name: &str, kind: &str, table: &Vec<(usize, Vec<Interval>)>) {
    if table.len() == 0 {
        return;
    }
    let mut header = String::from_str(name);
    header.append(": {");
    out.push(header);
    let mut printed: usize = 0;
    let mut bound: usize = 0;
    while printed < table.len()
        invariant
            printed <= table@.len(),
        decreases table@.len() - printed,
    {
        let mut best: usize = usize::MAX;
        let mut best_at: usize = 0;
        let mut found: bool = false;
        let mut i: usize = 0;
        while i < table.len()
            invariant
                i <= table@.len(),
                found ==> best_at < table@.len(),
            decreases table@.len() - i,
        {
            if table[i].0 >= bound && (!found || table[i].0 < best) {
                best = table[i].0;
                best_at = i;
                found = true;
            }
            i = i + 1;
        }
        if !found {
            break;
        }
        let mut line = String::from_str("  ");
        line.append(kind);
        line.append("(");
        let num = dec_string(best);
        line.append(num.as_str());
        line.append("): [");
        let intervals = &table[best_at].1;
        let mut j: usize = 0;
        while j < intervals.len()
            invariant
                j <= intervals@.len(),
            decreases intervals@.len() - j,
        {
            let iv = intervals[j];
            line.append("[");
            let lo = dec_string(iv.0);
            line.append(lo.as_str());
            line.append(", ");
            let hi = dec_string(iv.1);
            line.append(hi.as_str());
            line.append("), ");
            j = j + 1;
        }
        line.append("]");
        out.push(line);
        printed = printed + 1;
        if best == usize::MAX {
            break;
        }
        bound = best + 1;
    }
    out.push(String::from_str("}"));
}

impl Stats {
    /// The statistics as text lines, grouped by kind in ascending identifier
    /// order; empty when recording was off.
    pub fn render(&self) -> Vec<String> {
        let mut out: Vec<String> = Vec::new();
        match &self.intervals {
            Some(intervals) => {
                out.push(String::from_str("intervals"));
                out.push(String::from_str("---------"));
                render_intervals(&mut out, "files", "FileId", &intervals.files);
                render_intervals(&mut out, "tags", "TagId", &intervals.tags);
                render_intervals(&mut out, "filters", "FilterId", &intervals.filters);
                render_intervals(&mut out, "distincts", "DistinctId", &intervals.distincts);
            }
            None => (),
        }
        match &self.sizes {
            Some(sizes) => {
                out.push(String::from_str("sizes"));
                out.push(String::from_str("-----"));
                render_sizes(&mut out, "files", "FileId", &sizes.files);
                render_sizes(&mut out, "tags", "TagId", &sizes.tags);
                render_sizes(&mut out, "filters", "FilterId", &sizes.filters);
                render_sizes(&mut out, "distincts", "DistinctId", &sizes.distincts);
            }
            None => (),
        }
        out
    }
}

} // verus!
