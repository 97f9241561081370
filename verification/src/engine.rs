//! The incremental evaluation engine: a flat arena of registered artifacts —
//! files, tags, filters, distinct nodes — each with a monotonically growing
//! cache, driven by the `Take` operation in `driver`.
//!
//! Identifiers are positions in one global registry (`kinds`), so the number
//! behind an identifier is unique across all four kinds and never reused.
//! Links between artifacts are stored identifiers, never references.

use vstd::prelude::*;
use vstd::string::*;
use crate::base::{Comparator, DistinctId, FileId, FilterId, Id, TagId};
use crate::base::{Interval, ReadIntervals, MAX_BATCH_SIZE};
use crate::bitset::{bits_elems, bits_new, bits_insert, bits_contains, bits_union, bits_intersect,
    bits_count, bits_clone};
use crate::bloomfilter::{bloom_accrue, bloom_covers, bloom_elems, bloom_hits, bloom_test, bloom_zero};
use crate::error::Error;
use crate::pattern::{pattern_capture, pattern_check, regex_capture, regex_valid};
use crate::script::{lua_new, lua_run, lua_eval_bool, lua_eval_string};
use crate::stats::{Output, Stats};
use crate::text::{direct_sat, eval_direct, spec_dec};

verus! {

/// A command the engine accepts. The surface language's parser and
/// interpreter assemble these; the engine's contracts are the interface.
pub enum Command {
    /// Register a file from its decoded lines, terminators included.
    Load(Vec<String>),
    /// Run a script in the shared global namespace for its side effects.
    Script(String),
    /// Register an empty tag, bound to the file.
    Tag(FileId, String),
    /// Set the tag's extraction pattern; capture group one is the value.
    Regex(TagId, String),
    /// Set the tag's transform script; it reads the variable `chunk`.
    Transform(TagId, String),
    /// Register a filter comparing the governing tag's value with a literal.
    DirectFilter(Id, Comparator, String),
    /// Register a filter testing the governing tag's value with a script.
    ScriptedFilter(Id, String),
    /// Register a deduplication node over the governing tag's values.
    Distinct(Id),
    /// Group by the governing tag's values; declared but not implemented.
    Group(Id),
    /// Drive the pipeline of the identifier and render the first `n` survivors.
    Take(Id, usize),
}

/// What a filter tests: a comparator against a literal, or a script.
pub(crate) enum FilterTest {
    Direct(Comparator, String),
    Scripted(String),
}

/// The registry entry of one identifier: its kind and its slot in that
/// kind's arena.
#[derive(Clone, Copy)]
pub(crate) enum Kind {
    File(usize),
    Tag(usize),
    Filter(usize),
    Distinct(usize),
}

/// A registered file: its lines, and the prefix already decoded into the
/// line cache. The cache grows only forward, so its start stays zero.
pub(crate) struct FileSlot {
    pub(crate) lines: Vec<String>,
    pub(crate) cache_start: usize,
    pub(crate) cache: Vec<String>,
}

/// A registered tag and its value cache, aligned to the file's line cache.
pub(crate) struct TagSlot {
    pub(crate) file: usize,
    pub(crate) name: String,
    pub(crate) pattern: Option<String>,
    pub(crate) transform: Option<String>,
    pub(crate) cache_start: usize,
    pub(crate) cache: Vec<Option<String>>,
}

/// A registered filter and its bitset cache over absolute line indices.
pub(crate) struct FilterSlot {
    pub(crate) parent: Id,
    pub(crate) test: FilterTest,
    pub(crate) start: usize,
    pub(crate) end: usize,
    pub(crate) bits: bit_set::BitSet,
}

/// A registered distinct node: its first-occurrence bitset and the bloom
/// filter of values seen so far.
pub(crate) struct DistinctSlot {
    pub(crate) parent: Id,
    pub(crate) start: usize,
    pub(crate) end: usize,
    pub(crate) bits: bit_set::BitSet,
    pub(crate) bloom: ethbloom::Bloom,
}

/// The views of a sequence of strings.
pub open spec fn str_views(s: Seq<String>) -> Seq<Seq<char>> {
    Seq::new(s.len(), |i: int| s[i]@)
}

/// The view of an optional string.
pub open spec fn opt_view(o: Option<String>) -> Option<Seq<char>> {
    match o {
        Option::Some(s) => Option::Some(s@),
        Option::None => Option::None,
    }
}

/// The views of a sequence of optional strings.
pub open spec fn val_views(s: Seq<Option<String>>) -> Seq<Option<Seq<char>>> {
    Seq::new(s.len(), |i: int| opt_view(s[i]))
}

/// What a tag extracts from one line before any transform runs: capture
/// group one of the pattern when a pattern is set, else the whole line.
pub open spec fn tag_extract(pattern: Option<Seq<char>>, line: Seq<char>) -> Option<Seq<char>> {
    match pattern {
        Option::Some(p) => regex_capture(p, line),
        Option::None => Option::Some(line),
    }
}

/// What a filter tests, over views: the vocabulary of public contracts.
pub enum FilterSpec {
    Direct(Comparator, Seq<char>),
    Scripted(Seq<char>),
}

/// The evaluation engine. It exclusively owns every artifact and cache;
/// identifiers are borrowed handles.
pub struct Engine {
    pub(crate) debug: bool,
    pub(crate) lua: rlua::Lua,
    pub(crate) kinds: Vec<Kind>,
    pub(crate) files: Vec<FileSlot>,
    pub(crate) tags: Vec<TagSlot>,
    pub(crate) filters: Vec<FilterSlot>,
    pub(crate) distincts: Vec<DistinctSlot>,
}

impl Engine {
    /// How many identifiers have been handed out.
    pub closed spec fn id_count(self) -> int {
        self.kinds@.len() as int
    }

    pub closed spec fn spec_debug(self) -> bool {
        self.debug
    }

    pub closed spec fn is_file_id(self, id: int) -> bool {
        &&& 1 <= id <= self.kinds@.len()
        &&& self.kinds@[id - 1] is File
        &&& (self.kinds@[id - 1]->File_0 as int) < self.files@.len()
    }

    pub closed spec fn is_tag_id(self, id: int) -> bool {
        &&& 1 <= id <= self.kinds@.len()
        &&& self.kinds@[id - 1] is Tag
        &&& (self.kinds@[id - 1]->Tag_0 as int) < self.tags@.len()
    }

    pub closed spec fn is_filter_id(self, id: int) -> bool {
        &&& 1 <= id <= self.kinds@.len()
        &&& self.kinds@[id - 1] is Filter
        &&& (self.kinds@[id - 1]->Filter_0 as int) < self.filters@.len()
    }

    pub closed spec fn is_distinct_id(self, id: int) -> bool {
        &&& 1 <= id <= self.kinds@.len()
        &&& self.kinds@[id - 1] is Distinct
        &&& (self.kinds@[id - 1]->Distinct_0 as int) < self.distincts@.len()
    }

    /// Whether the identifier is registered, with its kind.
    pub closed spec fn is_registered(self, id: Id) -> bool {
        match id {
            Id::File(f) => self.is_file_id(f.0 as int),
            Id::Tag(t) => self.is_tag_id(t.0 as int),
            Id::Filter(f) => self.is_filter_id(f.0 as int),
            Id::Distinct(d) => self.is_distinct_id(d.0 as int),
        }
    }

    pub(crate) open spec fn file_slot(self, id: int) -> int {
        self.kinds@[id - 1]->File_0 as int
    }

    pub(crate) open spec fn tag_slot(self, id: int) -> int {
        self.kinds@[id - 1]->Tag_0 as int
    }

    pub(crate) open spec fn filter_slot(self, id: int) -> int {
        self.kinds@[id - 1]->Filter_0 as int
    }

    pub(crate) open spec fn distinct_slot(self, id: int) -> int {
        self.kinds@[id - 1]->Distinct_0 as int
    }

    /// The whole content of a file, line by line.
    pub closed spec fn file_lines(self, id: int) -> Seq<Seq<char>> {
        str_views(self.files@[self.file_slot(id)].lines@)
    }

    /// How many lines of the file its line cache holds.
    pub closed spec fn file_cached(self, id: int) -> int {
        self.files@[self.file_slot(id)].cache@.len() as int
    }

    /// The identifier number of the file a tag is bound to.
    pub closed spec fn tag_file(self, id: int) -> int {
        self.tags@[self.tag_slot(id)].file as int
    }

    pub closed spec fn tag_name(self, id: int) -> Seq<char> {
        self.tags@[self.tag_slot(id)].name@
    }

    pub closed spec fn tag_pattern(self, id: int) -> Option<Seq<char>> {
        opt_view(self.tags@[self.tag_slot(id)].pattern)
    }

    pub closed spec fn tag_transform(self, id: int) -> Option<Seq<char>> {
        opt_view(self.tags@[self.tag_slot(id)].transform)
    }

    /// The values a tag's cache holds, one per cached line index.
    pub closed spec fn tag_vals(self, id: int) -> Seq<Option<Seq<char>>> {
        val_views(self.tags@[self.tag_slot(id)].cache@)
    }

    /// How many line indices a tag's cache covers.
    pub closed spec fn tag_cached(self, id: int) -> int {
        self.tags@[self.tag_slot(id)].cache@.len() as int
    }

    pub closed spec fn filter_parent(self, id: int) -> Id {
        self.filters@[self.filter_slot(id)].parent
    }

    /// What the filter tests, over views.
    pub closed spec fn filter_test(self, id: int) -> FilterSpec {
        match self.filters@[self.filter_slot(id)].test {
            FilterTest::Direct(cmp, lit) => FilterSpec::Direct(cmp, lit@),
            FilterTest::Scripted(src) => FilterSpec::Scripted(src@),
        }
    }

    /// The upper bound of the filter's cache `[0, end)`.
    pub closed spec fn filter_end(self, id: int) -> int {
        self.filters@[self.filter_slot(id)].end as int
    }

    /// The set of line indices the filter's bitset holds.
    pub closed spec fn filter_bits(self, id: int) -> Set<int> {
        bits_elems(self.filters@[self.filter_slot(id)].bits)
    }

    pub closed spec fn distinct_parent(self, id: int) -> Id {
        self.distincts@[self.distinct_slot(id)].parent
    }

    /// The distinct node's bloom filter state, opaque but for what
    /// `bloom_covers` says of it.
    pub closed spec fn distinct_bloom(self, id: int) -> ethbloom::Bloom {
        self.distincts@[self.distinct_slot(id)].bloom
    }

    /// The upper bound of the distinct cache `[0, end)`.
    pub closed spec fn distinct_end(self, id: int) -> int {
        self.distincts@[self.distinct_slot(id)].end as int
    }

    /// The set of first-occurrence line indices the distinct node holds.
    pub closed spec fn distinct_bits(self, id: int) -> Set<int> {
        bits_elems(self.distincts@[self.distinct_slot(id)].bits)
    }

    /// The governing tag of an identifier: the tag its parent chain reaches.
    /// Parent identifiers are always lower numbers, so the walk descends.
    pub closed spec fn gov_of(self, id: Id) -> Option<int>
        decreases id.spec_num() when id.spec_num() >= 0
    {
        match id {
            Id::Tag(t) => if self.is_tag_id(t.0 as int) {
                Option::Some(t.0 as int)
            } else {
                Option::None
            },
            Id::File(_) => Option::None,
            Id::Filter(f) => if self.is_filter_id(f.0 as int) {
                let p = self.filters@[self.filter_slot(f.0 as int)].parent;
                if 0 <= p.spec_num() < f.0 as int {
                    self.gov_of(p)
                } else {
                    Option::None
                }
            } else {
                Option::None
            },
            Id::Distinct(d) => if self.is_distinct_id(d.0 as int) {
                let p = self.distincts@[self.distinct_slot(d.0 as int)].parent;
                if 0 <= p.spec_num() < d.0 as int {
                    self.gov_of(p)
                } else {
                    Option::None
                }
            } else {
                Option::None
            },
        }
    }

    /// A parent reference as a filter or distinct node takes it: a registered
    /// tag, filter or distinct node — never a file.
    pub closed spec fn parent_ok(self, p: Id) -> bool {
        match p {
            Id::Tag(t) => self.is_tag_id(t.0 as int),
            Id::Filter(f) => self.is_filter_id(f.0 as int),
            Id::Distinct(d) => self.is_distinct_id(d.0 as int),
            Id::File(_) => false,
        }
    }

    pub(crate) open spec fn file_wf(self, j: int) -> bool {
        let fs = self.files@[j];
        &&& fs.cache_start == 0
        &&& fs.cache@.len() <= fs.lines@.len()
        &&& forall|x: int| 0 <= x < fs.cache@.len() ==> (#[trigger] fs.cache@[x])@ == fs.lines@[x]@
    }

    /// The data part of a tag's well-formedness: the cache stays aligned to
    /// the file's line cache, and — when no transform is set — holds exactly
    /// what the pattern extracts; with a transform, a failed extraction is
    /// still a missing value.
    pub(crate) open spec fn tag_data_wf(self, k: int) -> bool {
        let t = self.tags@[k];
        let fl = self.files@[self.file_slot(t.file as int)];
        &&& t.cache_start == 0
        &&& t.cache@.len() <= fl.cache@.len()
        &&& t.transform is None ==> forall|x: int| 0 <= x < t.cache@.len()
            ==> opt_view(#[trigger] t.cache@[x]) == tag_extract(opt_view(t.pattern), fl.lines@[x]@)
        &&& t.transform is Some ==> forall|x: int| 0 <= x < t.cache@.len()
            && t.pattern is Some && tag_extract(opt_view(t.pattern), fl.lines@[x]@) is None
            ==> (#[trigger] t.cache@[x]) is None
    }

    pub(crate) open spec fn tag_wf(self, k: int, i: int) -> bool {
        let t = self.tags@[k];
        &&& 1 <= t.file as int <= i
        &&& self.is_file_id(t.file as int)
        &&& self.tag_data_wf(k)
    }

    /// The data part of a filter's well-formedness: its bitset holds exactly
    /// the indices within its bound whose governing tag value satisfies the
    /// test (for a direct test), and only indices with present values (for a
    /// scripted one).
    pub(crate) open spec fn filter_data_wf(self, k: int) -> bool {
        let f = self.filters@[k];
        let g = self.gov_of(f.parent);
        let tv = self.tag_vals(g->Some_0);
        &&& f.start == 0
        &&& f.end as int <= self.tag_cached(g->Some_0)
        &&& bits_elems(f.bits).finite()
        &&& forall|n: int| #[trigger] bits_elems(f.bits).contains(n) ==> 0 <= n < f.end as int
        &&& match f.test {
            FilterTest::Direct(cmp, lit) => forall|n: int| 0 <= n < f.end as int
                ==> (#[trigger] bits_elems(f.bits).contains(n) <==> direct_sat(cmp, lit@, tv[n])),
            FilterTest::Scripted(_) => forall|n: int|
                #[trigger] bits_elems(f.bits).contains(n) ==> tv[n] is Some,
        }
    }

    pub(crate) open spec fn filter_wf(self, k: int, i: int) -> bool {
        let f = self.filters@[k];
        &&& 0 <= f.parent.spec_num() <= i
        &&& self.parent_ok(f.parent)
        &&& self.gov_of(f.parent) is Some
        &&& self.filter_data_wf(k)
    }

    /// The data part of a distinct node's well-formedness: every marked index
    /// holds a present value no earlier index repeats, and the bloom filter
    /// covers every value seen within the bound.
    pub(crate) open spec fn distinct_data_wf(self, k: int) -> bool {
        let d = self.distincts@[k];
        let g = self.gov_of(d.parent);
        let tv = self.tag_vals(g->Some_0);
        &&& d.start == 0
        &&& d.end as int <= self.tag_cached(g->Some_0)
        &&& bits_elems(d.bits).finite()
        &&& forall|n: int| #[trigger] bits_elems(d.bits).contains(n) ==> 0 <= n < d.end as int
            && tv[n] is Some && (forall|m: int| 0 <= m < n ==> tv[m] != tv[n])
        &&& forall|n: int| 0 <= n < d.end as int && (#[trigger] tv[n]) is Some
            ==> bloom_covers(d.bloom, tv[n]->Some_0)
    }

    pub(crate) open spec fn distinct_wf(self, k: int, i: int) -> bool {
        let d = self.distincts@[k];
        &&& 0 <= d.parent.spec_num() <= i
        &&& self.parent_ok(d.parent)
        &&& self.gov_of(d.parent) is Some
        &&& self.distinct_data_wf(k)
    }

    pub(crate) open spec fn entry_wf(self, i: int) -> bool {
        match self.kinds@[i] {
            Kind::File(j) => (j as int) < self.files@.len() && self.file_wf(j as int),
            Kind::Tag(k) => (k as int) < self.tags@.len() && self.tag_wf(k as int, i),
            Kind::Filter(k) => (k as int) < self.filters@.len() && self.filter_wf(k as int, i),
            Kind::Distinct(k) => (k as int) < self.distincts@.len() && self.distinct_wf(k as int, i),
        }
    }

    /// The engine's invariant: every registry entry points to a live slot and
    /// that slot's caches are aligned, bounded and faithful as described on
    /// each kind's well-formedness predicate.
    pub closed spec fn wf(self) -> bool {
        forall|i: int| 0 <= i < self.kinds@.len() ==> #[trigger] self.entry_wf(i)
    }

    /// Cache coverage monotonicity, as a relation between two engine states:
    /// every artifact of the earlier state still exists, entities keep their
    /// links, and every cache bound and bitset has only grown, with the
    /// already-cached prefix unchanged.
    pub closed spec fn extends(pre: Engine, post: Engine) -> bool {
        &&& pre.kinds@.len() <= post.kinds@.len()
        &&& forall|i: int| 0 <= i < pre.kinds@.len() ==> post.kinds@[i] == #[trigger] pre.kinds@[i]
        &&& pre.files@.len() <= post.files@.len()
        &&& forall|j: int| 0 <= j < pre.files@.len() ==> {
            let a = #[trigger] pre.files@[j];
            let b = post.files@[j];
            &&& b.lines == a.lines
            &&& b.cache_start == a.cache_start
            &&& a.cache@.len() <= b.cache@.len()
            &&& forall|x: int| 0 <= x < a.cache@.len() ==> #[trigger] b.cache@[x] == a.cache@[x]
        }
        &&& pre.tags@.len() <= post.tags@.len()
        &&& forall|k: int| 0 <= k < pre.tags@.len() ==> {
            let a = #[trigger] pre.tags@[k];
            let b = post.tags@[k];
            &&& b.file == a.file
            &&& b.name == a.name
            &&& b.cache_start == a.cache_start
            &&& a.cache@.len() <= b.cache@.len()
            &&& forall|x: int| 0 <= x < a.cache@.len() ==> #[trigger] b.cache@[x] == a.cache@[x]
        }
        &&& pre.filters@.len() <= post.filters@.len()
        &&& forall|k: int| 0 <= k < pre.filters@.len() ==> {
            let a = #[trigger] pre.filters@[k];
            let b = post.filters@[k];
            &&& b.parent == a.parent
            &&& b.test == a.test
            &&& b.start == a.start
            &&& a.end <= b.end
            &&& bits_elems(a.bits).subset_of(bits_elems(b.bits))
        }
        &&& pre.distincts@.len() <= post.distincts@.len()
        &&& forall|k: int| 0 <= k < pre.distincts@.len() ==> {
            let a = #[trigger] pre.distincts@[k];
            let b = post.distincts@[k];
            &&& b.parent == a.parent
            &&& b.start == a.start
            &&& a.end <= b.end
            &&& bits_elems(a.bits).subset_of(bits_elems(b.bits))
            &&& forall|u: Seq<char>| bloom_covers(a.bloom, u) ==> bloom_covers(b.bloom, u)
        }
    }
}

/// The monotonic-growth relation is reflexive.
pub proof fn lemma_extends_refl(e: Engine)
    ensures
        Engine::extends(e, e),
{
}

/// The monotonic-growth relation chains across successive operations.
pub proof fn lemma_extends_trans(a: Engine, b: Engine, c: Engine)
    requires
        Engine::extends(a, b),
        Engine::extends(b, c),
    ensures
        Engine::extends(a, c),
{
    assert forall|j: int| 0 <= j < a.files@.len() implies {
        let x = #[trigger] a.files@[j];
        let z = c.files@[j];
        &&& z.lines == x.lines
        &&& z.cache_start == x.cache_start
        &&& x.cache@.len() <= z.cache@.len()
        &&& forall|y: int| 0 <= y < x.cache@.len() ==> #[trigger] z.cache@[y] == x.cache@[y]
    } by {
        assert(a.files@[j].cache@.len() <= b.files@[j].cache@.len());
    }
    assert forall|k: int| 0 <= k < a.tags@.len() implies {
        let x = #[trigger] a.tags@[k];
        let z = c.tags@[k];
        &&& z.file == x.file
        &&& z.name == x.name
        &&& z.cache_start == x.cache_start
        &&& x.cache@.len() <= z.cache@.len()
        &&& forall|y: int| 0 <= y < x.cache@.len() ==> #[trigger] z.cache@[y] == x.cache@[y]
    } by {
        assert(a.tags@[k].cache@.len() <= b.tags@[k].cache@.len());
    }
    assert forall|k: int| 0 <= k < a.filters@.len() implies
        bits_elems(#[trigger] a.filters@[k].bits).subset_of(bits_elems(c.filters@[k].bits)) by {
        assert(bits_elems(a.filters@[k].bits).subset_of(bits_elems(b.filters@[k].bits)));
    }
    assert forall|k: int| 0 <= k < a.distincts@.len() implies
        bits_elems(#[trigger] a.distincts@[k].bits).subset_of(bits_elems(c.distincts@[k].bits))
            && (forall|u: Seq<char>| bloom_covers(a.distincts@[k].bloom, u)
                ==> bloom_covers(c.distincts@[k].bloom, u)) by {
        assert(bits_elems(a.distincts@[k].bits).subset_of(bits_elems(b.distincts@[k].bits)));
        assert forall|u: Seq<char>| bloom_covers(a.distincts@[k].bloom, u)
            implies bloom_covers(c.distincts@[k].bloom, u) by {
            assert(bloom_covers(b.distincts@[k].bloom, u));
        }
    }
}

/// Which identifier an operation may resolve never changes once registered,
/// and neither does the governing tag its parent chain reaches, as long as
/// registry entries and entity links are kept.
pub(crate) proof fn lemma_gov_stable_one(pre: Engine, post: Engine, id: Id)
    requires
        pre.kinds@.len() <= post.kinds@.len(),
        forall|i: int| 0 <= i < pre.kinds@.len() ==> post.kinds@[i] == #[trigger] pre.kinds@[i],
        pre.tags@.len() <= post.tags@.len(),
        forall|k: int| 0 <= k < pre.tags@.len()
            ==> (#[trigger] post.tags@[k]).file == pre.tags@[k].file,
        pre.filters@.len() <= post.filters@.len(),
        forall|k: int| 0 <= k < pre.filters@.len()
            ==> (#[trigger] post.filters@[k]).parent == pre.filters@[k].parent,
        pre.distincts@.len() <= post.distincts@.len(),
        forall|k: int| 0 <= k < pre.distincts@.len()
            ==> (#[trigger] post.distincts@[k]).parent == pre.distincts@[k].parent,
        pre.wf(),
        id.spec_num() <= pre.kinds@.len(),
    ensures
        post.gov_of(id) == pre.gov_of(id),
    decreases id.spec_num(),
{
    if 1 <= id.spec_num() && id.spec_num() <= pre.kinds@.len() {
        assert(pre.entry_wf(id.spec_num() - 1));
    }
    match id {
        Id::Tag(_) => {}
        Id::File(_) => {}
        Id::Filter(f) => {
            if pre.is_filter_id(f.0 as int) {
                let p = pre.filters@[pre.filter_slot(f.0 as int)].parent;
                if 0 <= p.spec_num() < f.0 as int {
                    lemma_gov_stable_one(pre, post, p);
                }
            }
        }
        Id::Distinct(d) => {
            if pre.is_distinct_id(d.0 as int) {
                let p = pre.distincts@[pre.distinct_slot(d.0 as int)].parent;
                if 0 <= p.spec_num() < d.0 as int {
                    lemma_gov_stable_one(pre, post, p);
                }
            }
        }
    }
}

/// `lemma_gov_stable_one`, for every identifier of the earlier state at once.
pub(crate) proof fn lemma_gov_stable(pre: Engine, post: Engine)
    requires
        pre.kinds@.len() <= post.kinds@.len(),
        forall|i: int| 0 <= i < pre.kinds@.len() ==> post.kinds@[i] == #[trigger] pre.kinds@[i],
        pre.tags@.len() <= post.tags@.len(),
        forall|k: int| 0 <= k < pre.tags@.len()
            ==> (#[trigger] post.tags@[k]).file == pre.tags@[k].file,
        pre.filters@.len() <= post.filters@.len(),
        forall|k: int| 0 <= k < pre.filters@.len()
            ==> (#[trigger] post.filters@[k]).parent == pre.filters@[k].parent,
        pre.distincts@.len() <= post.distincts@.len(),
        forall|k: int| 0 <= k < pre.distincts@.len()
            ==> (#[trigger] post.distincts@[k]).parent == pre.distincts@[k].parent,
        pre.wf(),
    ensures
        forall|id: Id| id.spec_num() <= pre.kinds@.len()
            ==> #[trigger] post.gov_of(id) == pre.gov_of(id),
{
    assert forall|id: Id| id.spec_num() <= pre.kinds@.len()
        implies #[trigger] post.gov_of(id) == pre.gov_of(id) by {
        lemma_gov_stable_one(pre, post, id);
    }
}

/// A governing tag, when one exists, is a registered tag whose number does
/// not exceed the identifier it governs.
pub(crate) proof fn lemma_gov_valid(e: Engine, id: Id)
    requires
        e.gov_of(id) is Some,
    ensures
        e.is_tag_id(e.gov_of(id)->Some_0),
        1 <= e.gov_of(id)->Some_0 <= id.spec_num(),
    decreases id.spec_num(),
{
    match id {
        Id::Tag(_) => {}
        Id::File(_) => {}
        Id::Filter(f) => {
            let p = e.filters@[e.filter_slot(f.0 as int)].parent;
            lemma_gov_valid(e, p);
        }
        Id::Distinct(d) => {
            let p = e.distincts@[e.distinct_slot(d.0 as int)].parent;
            lemma_gov_valid(e, p);
        }
    }
}

/// Registering new artifacts — and reconfiguring a tag whose cache is still
/// empty — preserves the well-formedness of everything registered before.
pub(crate) proof fn lemma_wf_grow(pre: Engine, post: Engine)
    requires
        pre.wf(),
        pre.kinds@.len() <= post.kinds@.len(),
        forall|i: int| 0 <= i < pre.kinds@.len() ==> post.kinds@[i] == #[trigger] pre.kinds@[i],
        pre.files@.len() <= post.files@.len(),
        forall|j: int| 0 <= j < pre.files@.len() ==> #[trigger] post.files@[j] == pre.files@[j],
        pre.tags@.len() <= post.tags@.len(),
        forall|k: int| 0 <= k < pre.tags@.len() ==> {
            let a = #[trigger] pre.tags@[k];
            let b = post.tags@[k];
            &&& b.file == a.file
            &&& b.name == a.name
            &&& b.cache_start == a.cache_start
            &&& b.cache == a.cache
            &&& (b.pattern == a.pattern && b.transform == a.transform) || a.cache@.len() == 0
        },
        pre.filters@.len() <= post.filters@.len(),
        forall|k: int| 0 <= k < pre.filters@.len() ==> #[trigger] post.filters@[k] == pre.filters@[k],
        pre.distincts@.len() <= post.distincts@.len(),
        forall|k: int| 0 <= k < pre.distincts@.len()
            ==> #[trigger] post.distincts@[k] == pre.distincts@[k],
    ensures
        forall|i: int| 0 <= i < pre.kinds@.len() ==> #[trigger] post.entry_wf(i),
{
    lemma_gov_stable(pre, post);
    assert forall|i: int| 0 <= i < pre.kinds@.len() implies #[trigger] post.entry_wf(i) by {
        assert(pre.entry_wf(i));
        match pre.kinds@[i] {
            Kind::File(j) => {
                assert(post.file_wf(j as int));
            }
            Kind::Tag(k) => {
                let a = pre.tags@[k as int];
                let b = post.tags@[k as int];
                assert(pre.tag_wf(k as int, i));
                assert(post.is_file_id(a.file as int));
                if a.cache@.len() == 0 {
                    assert(post.tag_wf(k as int, i));
                } else {
                    assert(b.pattern == a.pattern && b.transform == a.transform);
                    assert(post.tag_wf(k as int, i));
                }
            }
            Kind::Filter(k) => {
                let f = pre.filters@[k as int];
                assert(pre.filter_wf(k as int, i));
                assert(f.parent.spec_num() <= i < pre.kinds@.len());
                assert(post.gov_of(f.parent) == pre.gov_of(f.parent));
                let g = pre.gov_of(f.parent)->Some_0;
                lemma_gov_valid(pre, f.parent);
                assert(pre.entry_wf(g - 1));
                assert(post.tag_vals(g) == pre.tag_vals(g));
                assert(post.filter_wf(k as int, i));
            }
            Kind::Distinct(k) => {
                let d = pre.distincts@[k as int];
                assert(pre.distinct_wf(k as int, i));
                assert(d.parent.spec_num() <= i < pre.kinds@.len());
                assert(post.gov_of(d.parent) == pre.gov_of(d.parent));
                let g = pre.gov_of(d.parent)->Some_0;
                lemma_gov_valid(pre, d.parent);
                assert(pre.entry_wf(g - 1));
                assert(post.tag_vals(g) == pre.tag_vals(g));
                assert(post.distinct_wf(k as int, i));
            }
        }
    }
}

impl Engine {
    /// A fresh engine with no artifacts and statistics gathering off.
    pub fn new() -> (r: Engine)
        ensures
            r.wf(),
            r.id_count() == 0,
            !r.spec_debug(),
    {
        Engine {
            debug: false,
            lua: lua_new(),
            kinds: Vec::new(),
            files: Vec::new(),
            tags: Vec::new(),
            filters: Vec::new(),
            distincts: Vec::new(),
        }
    }

    /// A fresh engine that gathers statistics on every `Take`.
    pub fn new_debug() -> (r: Engine)
        ensures
            r.wf(),
            r.id_count() == 0,
            r.spec_debug(),
    {
        Engine {
            debug: true,
            lua: lua_new(),
            kinds: Vec::new(),
            files: Vec::new(),
            tags: Vec::new(),
            filters: Vec::new(),
            distincts: Vec::new(),
        }
    }

    /// Runs a script in the shared global namespace, for its side effects.
    /// The engine's artifacts and caches are untouched.
    pub fn run_script(&mut self, script: &str) -> (r: Result<(), Error>)
        requires
            old(self).wf(),
        ensures
            *final(self) == *old(self),
            r matches Err(e) ==> e is Script,
    {
        match lua_run(&self.lua, script) {
            Ok(()) => Ok(()),
            Err(msg) => Err(Error::Script(msg)),
        }
    }

    /// Registers a file from its decoded lines; the line cache starts empty.
    pub fn load(&mut self, lines: Vec<String>) -> (r: FileId)
        requires
            old(self).wf(),
        ensures
            final(self).wf(),
            Engine::extends(*old(self), *final(self)),
            final(self).id_count() == old(self).id_count() + 1,
            r.0 as int == final(self).id_count(),
            final(self).is_file_id(r.0 as int),
            final(self).file_lines(r.0 as int) == str_views(lines@),
            final(self).file_cached(r.0 as int) == 0,
            final(self).spec_debug() == old(self).spec_debug(),
            forall|id: Id| old(self).is_registered(id) ==> final(self).is_registered(id),
    {
        let ghost pre = *self;
        self.files.push(FileSlot { lines, cache_start: 0, cache: Vec::new() });
        self.kinds.push(Kind::File(self.files.len() - 1));
        let id = self.kinds.len();
        proof {
            lemma_wf_grow(pre, *self);
            assert(self.entry_wf(self.kinds@.len() - 1));
            assert forall|i: int| 0 <= i < self.kinds@.len() implies #[trigger] self.entry_wf(i) by {}
            assert forall|id2: Id| pre.is_registered(id2)
                implies final(self).is_registered(id2) by {}
        }
        FileId(id)
    }

    /// Registers an empty tag — no pattern, no transform — bound to the file.
    pub fn add_tag(&mut self, file: FileId, name: String) -> (r: Result<TagId, Error>)
        requires
            old(self).wf(),
        ensures
            final(self).spec_debug() == old(self).spec_debug(),
            final(self).wf(),
            Engine::extends(*old(self), *final(self)),
            !old(self).is_file_id(file.0 as int) ==> r == Err::<TagId, Error>(
                Error::MissingId(Id::File(file))) && *final(self) == *old(self),
            old(self).is_file_id(file.0 as int) ==> {
                &&& r is Ok
                &&& final(self).id_count() == old(self).id_count() + 1
                &&& r->Ok_0.0 as int == final(self).id_count()
                &&& final(self).is_tag_id(r->Ok_0.0 as int)
                &&& final(self).tag_file(r->Ok_0.0 as int) == file.0 as int
                &&& final(self).tag_name(r->Ok_0.0 as int) == name@
                &&& final(self).tag_pattern(r->Ok_0.0 as int) is None
                &&& final(self).tag_transform(r->Ok_0.0 as int) is None
                &&& final(self).tag_cached(r->Ok_0.0 as int) == 0
                &&& final(self).spec_debug() == old(self).spec_debug()
                &&& forall|id: Id| old(self).is_registered(id) ==> final(self).is_registered(id)
            },
    {
        if !self.is_file(file) {
            return Err(Error::MissingId(Id::File(file)));
        }
        let ghost pre = *self;
        self.tags.push(TagSlot {
            file: file.0,
            name,
            pattern: None,
            transform: None,
            cache_start: 0,
            cache: Vec::new(),
        });
        self.kinds.push(Kind::Tag(self.tags.len() - 1));
        let id = self.kinds.len();
        proof {
            lemma_wf_grow(pre, *self);
            assert(self.entry_wf(self.kinds@.len() - 1));
        }
        Ok(TagId(id))
    }

    /// Whether the identifier is registered as a file.
    fn is_file(&self, file: FileId) -> (r: bool)
        requires
            self.wf(),
        ensures
            r == self.is_file_id(file.0 as int),
    {
        if file.0 >= 1 && file.0 <= self.kinds.len() {
            proof {
                assert(self.entry_wf(file.0 - 1));
            }
            match self.kinds[file.0 - 1] {
                Kind::File(_) => true,
                _ => false,
            }
        } else {
            false
        }
    }

    /// The tag arena slot of a registered tag identifier.
    fn tag_slot_of(&self, tag: TagId) -> (r: Option<usize>)
        requires
            self.wf(),
        ensures
            match r {
                Some(k) => self.is_tag_id(tag.0 as int) && k as int == self.tag_slot(tag.0 as int)
                    && (k as int) < self.tags@.len(),
                None => !self.is_tag_id(tag.0 as int),
            },
    {
        if tag.0 >= 1 && tag.0 <= self.kinds.len() {
            proof {
                assert(self.entry_wf(tag.0 - 1));
            }
            match self.kinds[tag.0 - 1] {
                Kind::Tag(k) => Some(k),
                _ => None,
            }
        } else {
            None
        }
    }

    /// Sets the tag's extraction pattern. Refused when the pattern does not
    /// compile, and when the tag's cache already holds values — extraction
    /// cannot change under a cache that never shrinks.
    pub fn set_regex(&mut self, tag: TagId, pattern: String) -> (r: Result<(), Error>)
        requires
            old(self).wf(),
        ensures
            final(self).spec_debug() == old(self).spec_debug(),
            final(self).wf(),
            Engine::extends(*old(self), *final(self)),
            !old(self).is_tag_id(tag.0 as int) ==> r == Err::<(), Error>(
                Error::MissingId(Id::Tag(tag))) && *final(self) == *old(self),
            old(self).is_tag_id(tag.0 as int) && old(self).tag_cached(tag.0 as int) > 0
                ==> r == Err::<(), Error>(Error::TagCached(Id::Tag(tag)))
                    && *final(self) == *old(self),
            old(self).is_tag_id(tag.0 as int) && old(self).tag_cached(tag.0 as int) == 0
                && !regex_valid(pattern@) ==> (r matches Err(e) && e is Regex)
                    && *final(self) == *old(self),
            old(self).is_tag_id(tag.0 as int) && old(self).tag_cached(tag.0 as int) == 0
                && regex_valid(pattern@) ==> {
                &&& r is Ok
                &&& final(self).id_count() == old(self).id_count()
                &&& final(self).tag_pattern(tag.0 as int) == Some(pattern@)
                &&& final(self).tag_transform(tag.0 as int)
                    == old(self).tag_transform(tag.0 as int)
                &&& final(self).tag_name(tag.0 as int) == old(self).tag_name(tag.0 as int)
                &&& final(self).tag_cached(tag.0 as int) == 0
            },
    {
        let k = match self.tag_slot_of(tag) {
            Some(k) => k,
            None => {
                return Err(Error::MissingId(Id::Tag(tag)));
            }
        };
        if self.tags[k].cache.len() > 0 {
            return Err(Error::TagCached(Id::Tag(tag)));
        }
        match pattern_check(pattern.as_str()) {
            Ok(()) => (),
            Err(msg) => {
                return Err(Error::Regex(msg));
            }
        }
        let ghost pre = *self;
        let mut slot = self.tags.remove(k);
        slot.pattern = Some(pattern);
        self.tags.insert(k, slot);
        proof {
            assert(self.tags@ =~= pre.tags@.update(k as int, self.tags@[k as int]));
            lemma_wf_grow(pre, *self);
            assert forall|i: int| 0 <= i < self.kinds@.len()
                implies #[trigger] self.entry_wf(i) by {}
        }
        Ok(())
    }

    /// Stores the tag's transform script. Refused when the tag's cache
    /// already holds values.
    pub fn set_transform(&mut self, tag: TagId, transform: String) -> (r: Result<(), Error>)
        requires
            old(self).wf(),
        ensures
            final(self).spec_debug() == old(self).spec_debug(),
            final(self).wf(),
            Engine::extends(*old(self), *final(self)),
            !old(self).is_tag_id(tag.0 as int) ==> r == Err::<(), Error>(
                Error::MissingId(Id::Tag(tag))) && *final(self) == *old(self),
            old(self).is_tag_id(tag.0 as int) && old(self).tag_cached(tag.0 as int) > 0
                ==> r == Err::<(), Error>(Error::TagCached(Id::Tag(tag)))
                    && *final(self) == *old(self),
            old(self).is_tag_id(tag.0 as int) && old(self).tag_cached(tag.0 as int) == 0 ==> {
                &&& r is Ok
                &&& final(self).id_count() == old(self).id_count()
                &&& final(self).tag_transform(tag.0 as int) == Some(transform@)
                &&& final(self).tag_pattern(tag.0 as int) == old(self).tag_pattern(tag.0 as int)
                &&& final(self).tag_name(tag.0 as int) == old(self).tag_name(tag.0 as int)
                &&& final(self).tag_cached(tag.0 as int) == 0
            },
    {
        let k = match self.tag_slot_of(tag) {
            Some(k) => k,
            None => {
                return Err(Error::MissingId(Id::Tag(tag)));
            }
        };
        if self.tags[k].cache.len() > 0 {
            return Err(Error::TagCached(Id::Tag(tag)));
        }
        let ghost pre = *self;
        let mut slot = self.tags.remove(k);
        slot.transform = Some(transform);
        self.tags.insert(k, slot);
        proof {
            assert(self.tags@ =~= pre.tags@.update(k as int, self.tags@[k as int]));
            lemma_wf_grow(pre, *self);
            assert forall|i: int| 0 <= i < self.kinds@.len()
                implies #[trigger] self.entry_wf(i) by {}
        }
        Ok(())
    }

    /// The governing tag of an identifier: walks the parent chain until it
    /// finds a tag; `None` when the identifier is unregistered or the chain
    /// ends at a file.
    pub fn find_parent_tag(&self, id: Id) -> (r: Option<TagId>)
        requires
            self.wf(),
        ensures
            match r {
                Some(t) => self.gov_of(id) == Some(t.0 as int),
                None => self.gov_of(id) is None,
            },
        decreases id.spec_num(),
    {
        match id {
            Id::Tag(t) => {
                if t.0 >= 1 && t.0 <= self.kinds.len() {
                    proof {
                        assert(self.entry_wf(t.0 - 1));
                    }
                    match self.kinds[t.0 - 1] {
                        Kind::Tag(_) => Some(t),
                        _ => None,
                    }
                } else {
                    None
                }
            }
            Id::File(_) => None,
            Id::Filter(f) => {
                if f.0 >= 1 && f.0 <= self.kinds.len() {
                    proof {
                        assert(self.entry_wf(f.0 - 1));
                    }
                    match self.kinds[f.0 - 1] {
                        Kind::Filter(k) => {
                            let p = self.filters[k].parent;
                            let pnum = p.num();
                            if pnum < f.0 {
                                self.find_parent_tag(p)
                            } else {
                                None
                            }
                        }
                        _ => None,
                    }
                } else {
                    None
                }
            }
            Id::Distinct(d) => {
                if d.0 >= 1 && d.0 <= self.kinds.len() {
                    proof {
                        assert(self.entry_wf(d.0 - 1));
                    }
                    match self.kinds[d.0 - 1] {
                        Kind::Distinct(k) => {
                            let p = self.distincts[k].parent;
                            let pnum = p.num();
                            if pnum < d.0 {
                                self.find_parent_tag(p)
                            } else {
                                None
                            }
                        }
                        _ => None,
                    }
                } else {
                    None
                }
            }
        }
    }

    /// Whether a parent reference is acceptable for a filter or distinct
    /// node: registered, and of a kind whose chain can reach a tag.
    fn check_parent(&self, parent: Id) -> (r: Result<(), Error>)
        requires
            self.wf(),
        ensures
            r is Ok <==> self.gov_of(parent) is Some,
            !self.is_registered(parent) ==> r == Err::<(), Error>(Error::MissingId(parent)),
            self.is_registered(parent) && self.gov_of(parent) is None
                ==> r == Err::<(), Error>(Error::NoGoverningTag(parent)),
    {
        let registered = match parent {
            Id::File(f) => self.is_file(f),
            Id::Tag(t) => self.tag_slot_of(t).is_some(),
            Id::Filter(f) => {
                if f.0 >= 1 && f.0 <= self.kinds.len() {
                    proof {
                        assert(self.entry_wf(f.0 - 1));
                    }
                    match self.kinds[f.0 - 1] {
                        Kind::Filter(_) => true,
                        _ => false,
                    }
                } else {
                    false
                }
            }
            Id::Distinct(d) => {
                if d.0 >= 1 && d.0 <= self.kinds.len() {
                    proof {
                        assert(self.entry_wf(d.0 - 1));
                    }
                    match self.kinds[d.0 - 1] {
                        Kind::Distinct(_) => true,
                        _ => false,
                    }
                } else {
                    false
                }
            }
        };
        if !registered {
            proof {
                if self.gov_of(parent) is Some {
                    lemma_gov_valid(*self, parent);
                }
            }
            return Err(Error::MissingId(parent));
        }
        match self.find_parent_tag(parent) {
            Some(_) => Ok(()),
            None => Err(Error::NoGoverningTag(parent)),
        }
    }

    /// Registers a filter comparing the governing tag's value with a literal;
    /// its bitset cache starts empty.
    pub fn add_direct_filter(&mut self, parent: Id, comparator: Comparator, literal: String)
        -> (r: Result<FilterId, Error>)
        requires
            old(self).wf(),
        ensures
            final(self).spec_debug() == old(self).spec_debug(),
            final(self).wf(),
            Engine::extends(*old(self), *final(self)),
            old(self).gov_of(parent) is None ==> *final(self) == *old(self) && r is Err,
            !old(self).is_registered(parent) ==> r == Err::<FilterId, Error>(
                Error::MissingId(parent)),
            old(self).is_registered(parent) && old(self).gov_of(parent) is None
                ==> r == Err::<FilterId, Error>(Error::NoGoverningTag(parent)),
            old(self).gov_of(parent) is Some ==> {
                &&& r is Ok
                &&& final(self).id_count() == old(self).id_count() + 1
                &&& r->Ok_0.0 as int == final(self).id_count()
                &&& final(self).is_filter_id(r->Ok_0.0 as int)
                &&& final(self).filter_parent(r->Ok_0.0 as int) == parent
                &&& final(self).filter_test(r->Ok_0.0 as int)
                    == FilterSpec::Direct(comparator, literal@)
                &&& final(self).filter_end(r->Ok_0.0 as int) == 0
                &&& final(self).filter_bits(r->Ok_0.0 as int) == Set::<int>::empty()
                &&& final(self).gov_of(Id::Filter(r->Ok_0)) == old(self).gov_of(parent)
                &&& final(self).spec_debug() == old(self).spec_debug()
                &&& forall|id: Id| old(self).is_registered(id) ==> final(self).is_registered(id)
            },
    {
        match self.check_parent(parent) {
            Ok(()) => (),
            Err(e) => {
                return Err(e);
            }
        }
        let ghost pre = *self;
        self.filters.push(FilterSlot {
            parent,
            test: FilterTest::Direct(comparator, literal),
            start: 0,
            end: 0,
            bits: bits_new(),
        });
        self.kinds.push(Kind::Filter(self.filters.len() - 1));
        let id = self.kinds.len();
        proof {
            lemma_wf_grow(pre, *self);
            lemma_gov_stable(pre, *self);
            lemma_gov_valid(pre, parent);
            assert(self.entry_wf(self.kinds@.len() - 1));
        }
        Ok(FilterId(id))
    }

    /// Registers a filter testing the governing tag's value with a script;
    /// its bitset cache starts empty.
    pub fn add_scripted_filter(&mut self, parent: Id, test: String)
        -> (r: Result<FilterId, Error>)
        requires
            old(self).wf(),
        ensures
            final(self).spec_debug() == old(self).spec_debug(),
            final(self).wf(),
            Engine::extends(*old(self), *final(self)),
            old(self).gov_of(parent) is None ==> *final(self) == *old(self) && r is Err,
            !old(self).is_registered(parent) ==> r == Err::<FilterId, Error>(
                Error::MissingId(parent)),
            old(self).is_registered(parent) && old(self).gov_of(parent) is None
                ==> r == Err::<FilterId, Error>(Error::NoGoverningTag(parent)),
            old(self).gov_of(parent) is Some ==> {
                &&& r is Ok
                &&& final(self).id_count() == old(self).id_count() + 1
                &&& r->Ok_0.0 as int == final(self).id_count()
                &&& final(self).is_filter_id(r->Ok_0.0 as int)
                &&& final(self).filter_parent(r->Ok_0.0 as int) == parent
                &&& final(self).filter_test(r->Ok_0.0 as int) == FilterSpec::Scripted(test@)
                &&& final(self).filter_end(r->Ok_0.0 as int) == 0
                &&& final(self).filter_bits(r->Ok_0.0 as int) == Set::<int>::empty()
                &&& final(self).gov_of(Id::Filter(r->Ok_0)) == old(self).gov_of(parent)
                &&& final(self).spec_debug() == old(self).spec_debug()
                &&& forall|id: Id| old(self).is_registered(id) ==> final(self).is_registered(id)
            },
    {
        match self.check_parent(parent) {
            Ok(()) => (),
            Err(e) => {
                return Err(e);
            }
        }
        let ghost pre = *self;
        self.filters.push(FilterSlot {
            parent,
            test: FilterTest::Scripted(test),
            start: 0,
            end: 0,
            bits: bits_new(),
        });
        self.kinds.push(Kind::Filter(self.filters.len() - 1));
        let id = self.kinds.len();
        proof {
            lemma_wf_grow(pre, *self);
            lemma_gov_stable(pre, *self);
            lemma_gov_valid(pre, parent);
            assert(self.entry_wf(self.kinds@.len() - 1));
        }
        Ok(FilterId(id))
    }

    /// Registers a deduplication node over the governing tag's values; its
    /// membership bitset starts empty and its bloom filter all zero.
    pub fn add_distinct(&mut self, parent: Id) -> (r: Result<DistinctId, Error>)
        requires
            old(self).wf(),
        ensures
            final(self).spec_debug() == old(self).spec_debug(),
            final(self).wf(),
            Engine::extends(*old(self), *final(self)),
            old(self).gov_of(parent) is None ==> *final(self) == *old(self) && r is Err,
            !old(self).is_registered(parent) ==> r == Err::<DistinctId, Error>(
                Error::MissingId(parent)),
            old(self).is_registered(parent) && old(self).gov_of(parent) is None
                ==> r == Err::<DistinctId, Error>(Error::NoGoverningTag(parent)),
            old(self).gov_of(parent) is Some ==> {
                &&& r is Ok
                &&& final(self).id_count() == old(self).id_count() + 1
                &&& r->Ok_0.0 as int == final(self).id_count()
                &&& final(self).is_distinct_id(r->Ok_0.0 as int)
                &&& final(self).distinct_parent(r->Ok_0.0 as int) == parent
                &&& final(self).distinct_end(r->Ok_0.0 as int) == 0
                &&& final(self).distinct_bits(r->Ok_0.0 as int) == Set::<int>::empty()
                &&& final(self).gov_of(Id::Distinct(r->Ok_0)) == old(self).gov_of(parent)
                &&& final(self).spec_debug() == old(self).spec_debug()
                &&& forall|id: Id| old(self).is_registered(id) ==> final(self).is_registered(id)
            },
    {
        match self.check_parent(parent) {
            Ok(()) => (),
            Err(e) => {
                return Err(e);
            }
        }
        let ghost pre = *self;
        self.distincts.push(DistinctSlot {
            parent,
            start: 0,
            end: 0,
            bits: bits_new(),
            bloom: bloom_zero(),
        });
        self.kinds.push(Kind::Distinct(self.distincts.len() - 1));
        let id = self.kinds.len();
        proof {
            lemma_wf_grow(pre, *self);
            lemma_gov_stable(pre, *self);
            lemma_gov_valid(pre, parent);
            assert(self.entry_wf(self.kinds@.len() - 1));
        }
        Ok(DistinctId(id))
    }
}



/// Extending caches — without touching registry entries, entity links, file
/// contents, or the already-cached prefixes — preserves well-formedness.
/// A slot whose cache did change must be handed in with its data part
/// re-established; every untouched slot's data part is re-derived here.
pub(crate) proof fn lemma_wf_ensure(pre: Engine, post: Engine)
    requires
        pre.wf(),
        post.kinds@ == pre.kinds@,
        post.files@.len() == pre.files@.len(),
        forall|j: int| 0 <= j < pre.files@.len() ==> {
            let a = #[trigger] pre.files@[j];
            let b = post.files@[j];
            &&& b.lines == a.lines
            &&& a.cache@.len() <= b.cache@.len()
            &&& (b == a || post.file_wf(j))
        },
        post.tags@.len() == pre.tags@.len(),
        forall|k: int| 0 <= k < pre.tags@.len() ==> {
            let a = #[trigger] pre.tags@[k];
            let b = post.tags@[k];
            &&& b.file == a.file
            &&& b.name == a.name
            &&& b.pattern == a.pattern
            &&& b.transform == a.transform
            &&& b.cache_start == a.cache_start
            &&& a.cache@.len() <= b.cache@.len()
            &&& forall|x: int| 0 <= x < a.cache@.len() ==> #[trigger] b.cache@[x] == a.cache@[x]
            &&& (b.cache == a.cache || post.tag_data_wf(k))
        },
        post.filters@.len() == pre.filters@.len(),
        forall|k: int| 0 <= k < pre.filters@.len() ==> {
            let a = #[trigger] pre.filters@[k];
            let b = post.filters@[k];
            &&& b.parent == a.parent
            &&& b.test == a.test
            &&& b.start == a.start
            &&& ((b.end == a.end && b.bits == a.bits && b == a) || post.filter_data_wf(k))
        },
        post.distincts@.len() == pre.distincts@.len(),
        forall|k: int| 0 <= k < pre.distincts@.len() ==> {
            let a = #[trigger] pre.distincts@[k];
            let b = post.distincts@[k];
            &&& b.parent == a.parent
            &&& b.start == a.start
            &&& (b == a || post.distinct_data_wf(k))
        },
    ensures
        post.wf(),
{
    lemma_gov_stable(pre, post);
    assert forall|i: int| 0 <= i < post.kinds@.len() implies #[trigger] post.entry_wf(i) by {
        assert(pre.entry_wf(i));
        match pre.kinds@[i] {
            Kind::File(j) => {
                if post.files@[j as int] == pre.files@[j as int] {
                    assert(pre.file_wf(j as int));
                    assert(post.file_wf(j as int));
                }
            }
            Kind::Tag(k) => {
                let a = pre.tags@[k as int];
                let b = post.tags@[k as int];
                if b.cache == a.cache {
                    let fsl = pre.file_slot(a.file as int);
                    assert(pre.tag_wf(k as int, i));
                    assert(pre.is_file_id(a.file as int));
                    assert(0 <= fsl < pre.files@.len());
                    assert(pre.tag_data_wf(k as int));
                    assert(post.files@[fsl].lines == pre.files@[fsl].lines);
                    assert forall|x: int| 0 <= x < b.cache@.len() && b.transform is None
                        implies opt_view(#[trigger] b.cache@[x])
                            == tag_extract(opt_view(b.pattern), post.files@[fsl].lines@[x]@) by {
                        assert(str_views(post.files@[fsl].lines@) == str_views(pre.files@[fsl].lines@));
                        assert(post.files@[fsl].lines@[x]@ == pre.files@[fsl].lines@[x]@);
                    }
                    assert forall|x: int| 0 <= x < b.cache@.len() && b.transform is Some
                        && b.pattern is Some
                        && tag_extract(opt_view(b.pattern), post.files@[fsl].lines@[x]@) is None
                        implies (#[trigger] b.cache@[x]) is None by {
                        assert(post.files@[fsl].lines@[x]@ == pre.files@[fsl].lines@[x]@);
                    }
                    assert(post.tag_data_wf(k as int));
                }
            }
            Kind::Filter(k) => {
                let a = pre.filters@[k as int];
                let b = post.filters@[k as int];
                lemma_gov_valid(pre, a.parent);
                let g = pre.gov_of(a.parent)->Some_0;
                assert(pre.entry_wf(g - 1));
                let gsl = pre.tag_slot(g);
                if b == a {
                    assert(pre.filter_data_wf(k as int));
                    assert(post.tag_cached(g) >= pre.tag_cached(g));
                    assert forall|n: int| 0 <= n < pre.tag_cached(g)
                        implies post.tag_vals(g)[n] == #[trigger] pre.tag_vals(g)[n] by {
                        assert(post.tags@[gsl].cache@[n] == pre.tags@[gsl].cache@[n]);
                    }
                    assert(post.filter_data_wf(k as int));
                }
            }
            Kind::Distinct(k) => {
                let a = pre.distincts@[k as int];
                let b = post.distincts@[k as int];
                lemma_gov_valid(pre, a.parent);
                let g = pre.gov_of(a.parent)->Some_0;
                assert(pre.entry_wf(g - 1));
                let gsl = pre.tag_slot(g);
                if b == a {
                    assert(pre.distinct_data_wf(k as int));
                    assert(post.tag_cached(g) >= pre.tag_cached(g));
                    assert forall|n: int| 0 <= n < pre.tag_cached(g)
                        implies post.tag_vals(g)[n] == #[trigger] pre.tag_vals(g)[n] by {
                        assert(post.tags@[gsl].cache@[n] == pre.tags@[gsl].cache@[n]);
                    }
                    assert forall|n: int| #[trigger] bits_elems(b.bits).contains(n)
                        implies 0 <= n < b.end as int && post.tag_vals(g)[n] is Some
                            && (forall|m: int| 0 <= m < n
                                ==> post.tag_vals(g)[m] != post.tag_vals(g)[n]) by {
                        assert(bits_elems(a.bits).contains(n));
                        assert(post.tag_vals(g)[n] == pre.tag_vals(g)[n]);
                        assert forall|m: int| 0 <= m < n
                            implies post.tag_vals(g)[m] != post.tag_vals(g)[n] by {
                            assert(post.tag_vals(g)[m] == pre.tag_vals(g)[m]);
                            assert(pre.tag_vals(g)[m] != pre.tag_vals(g)[n]);
                        }
                    }
                    assert forall|n: int| 0 <= n < b.end as int
                        && (#[trigger] post.tag_vals(g)[n]) is Some
                        implies bloom_covers(b.bloom, post.tag_vals(g)[n]->Some_0) by {
                        assert(post.tag_vals(g)[n] == pre.tag_vals(g)[n]);
                    }
                    assert(post.distinct_data_wf(k as int));
                }
            }
        }
    }
}

impl Engine {
    /// The approximate footprint of a line cache, in characters.
    fn size_of_lines(cache: &Vec<String>) -> usize {
        let mut acc: usize = 0;
        let mut i: usize = 0;
        loop
            invariant
                i <= cache@.len(),
            decreases cache@.len() - i,
        {
            if i == cache.len() {
                return acc;
            }
            acc = acc.saturating_add(cache[i].as_str().unicode_len());
            i = i + 1;
        }
    }

    /// Extends the file's line cache until it covers the requested interval or
    /// the file is exhausted, and returns how much of the request is covered;
    /// zero means end of file. The cache grows only forward: the engine
    /// rejects nothing here because a request never starts before zero.
    pub(crate) fn ensure_file(&mut self, stats: &mut Stats, file_id: FileId, interval: Interval)
        -> (r: Result<usize, Error>)
        requires
            old(self).wf(),
            old(self).is_file_id(file_id.0 as int),
            interval.0 <= interval.1,
        ensures
            final(self).wf(),
            Engine::extends(*old(self), *final(self)),
            final(self).kinds@ == old(self).kinds@,
            final(self).tags@ == old(self).tags@,
            final(self).filters@ == old(self).filters@,
            final(self).distincts@ == old(self).distincts@,
            final(self).files@.len() == old(self).files@.len(),
            final(self).lua == old(self).lua,
            final(self).debug == old(self).debug,
            final(self).file_lines(file_id.0 as int) == old(self).file_lines(file_id.0 as int),
            forall|j: int| 0 <= j < old(self).files@.len()
                && j != old(self).file_slot(file_id.0 as int)
                ==> #[trigger] final(self).files@[j] == old(self).files@[j],
            r is Ok,
            // the covered bound after the call
            final(self).file_cached(file_id.0 as int) == {
                let pre = old(self).file_cached(file_id.0 as int);
                let total = old(self).file_lines(file_id.0 as int).len() as int;
                if interval.0 == interval.1 || interval.1 as int <= pre {
                    pre
                } else if interval.1 as int <= total {
                    interval.1 as int
                } else {
                    total
                }
            },
            // the portion of the request actually covered
            r->Ok_0 as int == {
                let end = final(self).file_cached(file_id.0 as int);
                let lo = interval.0 as int;
                let base = if end <= lo { end } else { lo };
                if end - base <= interval.1 - interval.0 {
                    end - base
                } else {
                    interval.1 - interval.0
                }
            },
            // untouched when the cache already covers the request
            interval.0 == interval.1
                || interval.1 as int <= old(self).file_cached(file_id.0 as int)
                ==> *final(self) == *old(self),
    {
        let num = file_id.0;
        proof {
            assert(self.is_file_id(num as int));
            assert(self.entry_wf(num as int - 1));
        }
        let j = match self.kinds[num - 1] {
            Kind::File(j) => j,
            _ => {
                proof {
                    assert(false);
                }
                return Err(Error::MissingId(Id::File(file_id)));
            }
        };
        let cached = self.files[j].cache.len();
        if interval.0 == interval.1 || interval.1 <= cached {
            let size = Engine::size_of_lines(&self.files[j].cache);
            stats.add_size(Id::File(file_id), size);
            let base = if cached <= interval.0 { cached } else { interval.0 };
            let avail = cached - base;
            let want = interval.1 - interval.0;
            return Ok(if avail <= want { avail } else { want });
        }
        let ghost pre = *self;
        let total = self.files[j].lines.len();
        let limit = if interval.1 <= total { interval.1 } else { total };
        stats.add_interval(Id::File(file_id), Interval(cached, interval.1));
        let mut x = cached;
        while x < limit
            invariant
                self.wf(),
                cached <= x <= limit,
                limit <= self.files@[j as int].lines@.len(),
                j < self.files@.len(),
                pre.wf(),
                pre.is_file_id(num as int),
                j as int == pre.file_slot(num as int),
                self.kinds@ == pre.kinds@,
                self.tags@ == pre.tags@,
                self.filters@ == pre.filters@,
                self.distincts@ == pre.distincts@,
                self.files@.len() == pre.files@.len(),
                self.lua == pre.lua,
                self.debug == pre.debug,
                forall|j2: int| 0 <= j2 < pre.files@.len() && j2 != j as int
                    ==> #[trigger] self.files@[j2] == pre.files@[j2],
                self.files@[j as int].lines == pre.files@[j as int].lines,
                self.files@[j as int].cache_start == pre.files@[j as int].cache_start,
                self.files@[j as int].cache@.len() == x,
                pre.files@[j as int].cache@.len() == cached,
                forall|y: int| 0 <= y < cached ==> #[trigger] self.files@[j as int].cache@[y]
                    == pre.files@[j as int].cache@[y],
            decreases limit - x,
        {
            let ghost before = *self;
            proof {
                assert(before.entry_wf(num as int - 1));
            }
            let line = self.files[j].lines[x].clone();
            self.files[j].cache.push(line);
            proof {
                assert forall|j2: int| 0 <= j2 < self.files@.len()
                    implies {
                        let a = #[trigger] before.files@[j2];
                        let b = self.files@[j2];
                        &&& b.lines == a.lines
                        &&& a.cache@.len() <= b.cache@.len()
                        &&& (b == a || self.file_wf(j2))
                    } by {
                    if j2 == j as int {
                        assert(before.file_wf(j as int));
                        assert(self.files@[j2].cache@ == before.files@[j2].cache@.push(line));
                        assert forall|y: int| 0 <= y < self.files@[j2].cache@.len()
                            implies (#[trigger] self.files@[j2].cache@[y])@
                                == self.files@[j2].lines@[y]@ by {
                            if y < x {
                                assert(before.files@[j2].cache@[y]@ == before.files@[j2].lines@[y]@);
                            } else {
                                assert(self.files@[j2].cache@[y] == line);
                            }
                        }
                        assert(self.file_wf(j2));
                    } else {
                        assert(self.files@[j2] == before.files@[j2]);
                    }
                }
                assert forall|i: int| 0 <= i < self.kinds@.len()
                    implies #[trigger] self.entry_wf(i) by {
                    lemma_wf_ensure_instance(before, *self, i);
                }
            }
            x = x + 1;
        }
        let size = Engine::size_of_lines(&self.files[j].cache);
        stats.add_size(Id::File(file_id), size);
        let newend = self.files[j].cache.len();
        let base = if newend <= interval.0 { newend } else { interval.0 };
        let avail = newend - base;
        let want = interval.1 - interval.0;
        Ok(if avail <= want { avail } else { want })
    }
}

/// One entry of `lemma_wf_ensure`, for use inside loops.
pub(crate) proof fn lemma_wf_ensure_instance(pre: Engine, post: Engine, i: int)
    requires
        pre.wf(),
        0 <= i < post.kinds@.len(),
        post.kinds@ == pre.kinds@,
        post.files@.len() == pre.files@.len(),
        forall|j: int| 0 <= j < pre.files@.len() ==> {
            let a = #[trigger] pre.files@[j];
            let b = post.files@[j];
            &&& b.lines == a.lines
            &&& a.cache@.len() <= b.cache@.len()
            &&& (b == a || post.file_wf(j))
        },
        post.tags@ == pre.tags@,
        post.filters@ == pre.filters@,
        post.distincts@ == pre.distincts@,
    ensures
        post.entry_wf(i),
{
    lemma_wf_ensure(pre, post);
}


impl Engine {
    /// Extracts the tag's value from each line of the range: capture group one
    /// of the pattern (or the whole line without one), post-transformed by the
    /// script when one is set; a failed extraction or transform is `None`.
    fn parse_tag_from_lines(lua: &rlua::Lua, pattern: &Option<String>, transform: &Option<String>,
        lines: &Vec<String>, from: usize, to: usize) -> (r: Vec<Option<String>>)
        requires
            from <= to <= lines@.len(),
        ensures
            r@.len() == to - from,
            transform is None ==> forall|x: int| 0 <= x < r@.len()
                ==> opt_view(#[trigger] r@[x])
                    == tag_extract(opt_view(*pattern), lines@[from + x]@),
            forall|x: int| 0 <= x < r@.len() && pattern is Some
                && tag_extract(opt_view(*pattern), lines@[from + x]@) is None
                ==> (#[trigger] r@[x]) is None,
    {
        let mut out: Vec<Option<String>> = Vec::new();
        let mut i = from;
        while i < to
            invariant
                from <= i <= to,
                to <= lines@.len(),
                out@.len() == i - from,
                transform is None ==> forall|x: int| 0 <= x < out@.len()
                    ==> opt_view(#[trigger] out@[x])
                        == tag_extract(opt_view(*pattern), lines@[from + x]@),
                forall|x: int| 0 <= x < out@.len() && pattern is Some
                    && tag_extract(opt_view(*pattern), lines@[from + x]@) is None
                    ==> (#[trigger] out@[x]) is None,
            decreases to - i,
        {
            let base: Option<String> = match pattern {
                Some(p) => pattern_capture(p.as_str(), lines[i].as_str()),
                None => Some(lines[i].clone()),
            };
            proof {
                assert(opt_view(base) == tag_extract(opt_view(*pattern), lines@[i as int]@));
            }
            let v: Option<String> = match base {
                None => None,
                Some(b) => match transform {
                    None => Some(b),
                    Some(t) => lua_eval_string(lua, t.as_str(), b.as_str()),
                },
            };
            out.push(v);
            i = i + 1;
        }
        out
    }

    /// Extends the tag's value cache to cover the interval, parsing the lines
    /// the file cache already holds. A no-op when already covered.
    pub(crate) fn ensure_tag(&mut self, stats: &mut Stats, file_id: FileId, tag_id: TagId,
        interval: Interval) -> (r: Result<(), Error>)
        requires
            old(self).wf(),
            old(self).is_tag_id(tag_id.0 as int),
            old(self).tag_file(tag_id.0 as int) == file_id.0 as int,
            interval.0 == 0,
            interval.1 as int <= old(self).file_cached(file_id.0 as int),
        ensures
            final(self).wf(),
            Engine::extends(*old(self), *final(self)),
            final(self).kinds@ == old(self).kinds@,
            final(self).files@ == old(self).files@,
            final(self).filters@ == old(self).filters@,
            final(self).distincts@ == old(self).distincts@,
            final(self).tags@.len() == old(self).tags@.len(),
            final(self).lua == old(self).lua,
            final(self).debug == old(self).debug,
            r is Ok,
            forall|k2: int| 0 <= k2 < old(self).tags@.len()
                && k2 != old(self).tag_slot(tag_id.0 as int)
                ==> #[trigger] final(self).tags@[k2] == old(self).tags@[k2],
            final(self).tag_cached(tag_id.0 as int) == if interval.1 as int
                <= old(self).tag_cached(tag_id.0 as int) {
                old(self).tag_cached(tag_id.0 as int)
            } else {
                interval.1 as int
            },
            ({
                let ks = old(self).tag_slot(tag_id.0 as int);
                let a = old(self).tags@[ks];
                let b = final(self).tags@[ks];
                b.file == a.file && b.name == a.name && b.pattern == a.pattern
                    && b.transform == a.transform && b.cache_start == a.cache_start
            }),
            interval.1 as int <= old(self).tag_cached(tag_id.0 as int)
                ==> *final(self) == *old(self),
    {
        let num = tag_id.0;
        proof {
            assert(self.entry_wf(num as int - 1));
        }
        let k = match self.kinds[num - 1] {
            Kind::Tag(k) => k,
            _ => {
                proof {
                    assert(false);
                }
                return Err(Error::MissingId(Id::Tag(tag_id)));
            }
        };
        let cached = self.tags[k].cache.len();
        if interval.1 <= cached {
            let size = Engine::size_of_vals(&self.tags[k].cache);
            stats.add_size(Id::Tag(tag_id), size);
            return Ok(());
        }
        stats.add_interval(Id::Tag(tag_id), Interval(cached, interval.1));
        let fnum = file_id.0;
        proof {
            assert(self.entry_wf(fnum as int - 1));
        }
        let j = match self.kinds[fnum - 1] {
            Kind::File(j) => j,
            _ => {
                proof {
                    assert(false);
                }
                return Err(Error::MissingId(Id::File(file_id)));
            }
        };
        let ghost pre = *self;
        let mut vals = Engine::parse_tag_from_lines(&self.lua, &self.tags[k].pattern,
            &self.tags[k].transform, &self.files[j].cache, cached, interval.1);
        let ghost valsv = vals@;
        let mut slot = self.tags.remove(k);
        slot.cache.append(&mut vals);
        self.tags.insert(k, slot);
        proof {
            assert(self.tags@ =~= pre.tags@.update(k as int, self.tags@[k as int]));
            let t = self.tags@[k as int];
            let t0 = pre.tags@[k as int];
            assert(t.cache@ =~= t0.cache@ + valsv);
            // the extended cache is still faithful to the pattern
            assert(pre.file_wf(j as int));
            assert(pre.tag_data_wf(k as int));
            assert forall|x: int| 0 <= x < t.cache@.len() && t.transform is None
                implies opt_view(#[trigger] t.cache@[x])
                    == tag_extract(opt_view(t.pattern), self.files@[j as int].lines@[x]@) by {
                if x < cached {
                    assert(opt_view(t0.cache@[x])
                        == tag_extract(opt_view(t0.pattern), pre.files@[j as int].lines@[x]@));
                } else {
                    assert(t.cache@[x] == valsv[x - cached]);
                    assert(opt_view(valsv[x - cached]) == tag_extract(opt_view(t0.pattern),
                        pre.files@[j as int].cache@[x]@));
                    assert(pre.files@[j as int].cache@[x]@ == pre.files@[j as int].lines@[x]@);
                }
            }
            assert forall|x: int| 0 <= x < t.cache@.len() && t.transform is Some
                && t.pattern is Some
                && tag_extract(opt_view(t.pattern), self.files@[j as int].lines@[x]@) is None
                implies (#[trigger] t.cache@[x]) is None by {
                if x < cached {
                } else {
                    assert(t.cache@[x] == valsv[x - cached]);
                    assert(pre.files@[j as int].cache@[x]@ == pre.files@[j as int].lines@[x]@);
                }
            }
            assert(self.tag_data_wf(k as int));
            lemma_wf_ensure(pre, *self);
        }
        Ok(())
    }

    /// The approximate footprint of a value cache, in characters.
    fn size_of_vals(cache: &Vec<Option<String>>) -> usize {
        let mut acc: usize = 0;
        let mut i: usize = 0;
        loop
            invariant
                i <= cache@.len(),
            decreases cache@.len() - i,
        {
            if i == cache.len() {
                return acc;
            }
            match &cache[i] {
                Some(s) => {
                    acc = acc.saturating_add(s.as_str().unicode_len());
                }
                None => (),
            }
            i = i + 1;
        }
    }

    /// Extends every tag bound to the file over the interval, so that
    /// rendering can show all annotations, not only the queried pipeline's.
    pub(crate) fn ensure_all_tags(&mut self, stats: &mut Stats, file_id: FileId,
        interval: Interval) -> (r: Result<(), Error>)
        requires
            old(self).wf(),
            old(self).is_file_id(file_id.0 as int),
            interval.0 == 0,
            interval.1 as int <= old(self).file_cached(file_id.0 as int),
        ensures
            final(self).wf(),
            Engine::extends(*old(self), *final(self)),
            final(self).kinds@ == old(self).kinds@,
            final(self).files@ == old(self).files@,
            final(self).filters@ == old(self).filters@,
            final(self).distincts@ == old(self).distincts@,
            final(self).tags@.len() == old(self).tags@.len(),
            final(self).lua == old(self).lua,
            final(self).debug == old(self).debug,
            r is Ok,
            forall|t: int| #[trigger] final(self).is_tag_id(t)
                && final(self).tag_file(t) == file_id.0 as int
                ==> final(self).tag_cached(t) >= interval.1 as int,
            forall|k2: int| 0 <= k2 < old(self).tags@.len() ==> {
                let a = #[trigger] old(self).tags@[k2];
                let b = final(self).tags@[k2];
                b.file == a.file && b.name == a.name && b.pattern == a.pattern
                    && b.transform == a.transform
            },
    {
        let ghost pre = *self;
        let total = self.kinds.len();
        let mut i: usize = 0;
        while i < total
            invariant
                self.wf(),
                pre.wf(),
                Engine::extends(pre, *self),
                i <= total,
                total == self.kinds@.len(),
                pre.is_file_id(file_id.0 as int),
                self.kinds@ == pre.kinds@,
                self.files@ == pre.files@,
                self.filters@ == pre.filters@,
                self.distincts@ == pre.distincts@,
                self.tags@.len() == pre.tags@.len(),
                self.lua == pre.lua,
                self.debug == pre.debug,
                interval.0 == 0,
                interval.1 as int <= pre.file_cached(file_id.0 as int),
                forall|t: int| 1 <= t <= i && #[trigger] self.is_tag_id(t)
                    && self.tag_file(t) == file_id.0 as int
                    ==> self.tag_cached(t) >= interval.1 as int,
                forall|k2: int| 0 <= k2 < pre.tags@.len() ==> {
                    let a = #[trigger] pre.tags@[k2];
                    let b = self.tags@[k2];
                    b.file == a.file && b.name == a.name && b.pattern == a.pattern
                        && b.transform == a.transform
                },
            decreases total - i,
        {
            let ghost snap = *self;
            proof {
                assert(self.entry_wf(i as int));
            }
            let is_match = match self.kinds[i] {
                Kind::Tag(k) => self.tags[k].file == file_id.0,
                _ => false,
            };
            if is_match {
                proof {
                    assert(self.is_tag_id(i as int + 1));
                }
                match self.ensure_tag(stats, file_id, TagId(i + 1), interval) {
                    Ok(()) => (),
                    Err(e) => {
                        proof {
                            assert(false);
                        }
                        return Err(e);
                    }
                }
                proof {
                    lemma_extends_trans(pre, snap, *self);
                    assert forall|t: int| 1 <= t <= i + 1 && #[trigger] self.is_tag_id(t)
                        && self.tag_file(t) == file_id.0 as int
                        implies self.tag_cached(t) >= interval.1 as int by {
                        if t <= i as int {
                            assert(snap.is_tag_id(t));
                            assert(snap.tag_cached(t) >= interval.1 as int);
                            assert(self.tags@[snap.tag_slot(t)].cache@.len()
                                >= snap.tags@[snap.tag_slot(t)].cache@.len());
                        }
                    }
                }
            }
            i = i + 1;
            proof {
                assert forall|t: int| 1 <= t <= i && #[trigger] self.is_tag_id(t)
                    && self.tag_file(t) == file_id.0 as int
                    implies self.tag_cached(t) >= interval.1 as int by {}
            }
        }
        Ok(())
    }
}


impl Engine {
    /// The indices of the range whose values satisfy the filter: for a direct
    /// test exactly those whose present value compares as asked with the
    /// literal; for a scripted test those present values the script accepted —
    /// a missing value or a failing script marks nothing.
    fn filter_values(lua: &rlua::Lua, test: &FilterTest, values: &Vec<Option<String>>,
        from: usize, to: usize) -> (r: bit_set::BitSet)
        requires
            from <= to <= values@.len(),
        ensures
            bits_elems(r).finite(),
            forall|n: int| #[trigger] bits_elems(r).contains(n) ==> from <= n < to,
            forall|n: int| test is Direct && from <= n < to
                ==> (#[trigger] bits_elems(r).contains(n)
                    <==> direct_sat(test->Direct_0, test->Direct_1@, val_views(values@)[n])),
            forall|n: int| test is Scripted && #[trigger] bits_elems(r).contains(n)
                ==> val_views(values@)[n] is Some,
    {
        let mut r = bits_new();
        let mut i = from;
        while i < to
            invariant
                from <= i <= to,
                to <= values@.len(),
                bits_elems(r).finite(),
                forall|n: int| #[trigger] bits_elems(r).contains(n) ==> from <= n < i,
                forall|n: int| test is Direct && from <= n < i
                    ==> (#[trigger] bits_elems(r).contains(n)
                        <==> direct_sat(test->Direct_0, test->Direct_1@, val_views(values@)[n])),
                forall|n: int| test is Scripted && #[trigger] bits_elems(r).contains(n)
                    ==> val_views(values@)[n] is Some,
            decreases to - i,
        {
            match test {
                FilterTest::Direct(cmp, lit) => {
                    let sat = eval_direct(cmp, lit.as_str(), &values[i]);
                    proof {
                        assert(values@[i as int].deep_view() == opt_view(values@[i as int]));
                        assert(val_views(values@)[i as int] == opt_view(values@[i as int]));
                    }
                    if sat {
                        bits_insert(&mut r, i);
                    }
                }
                FilterTest::Scripted(src) => {
                    match &values[i] {
                        Some(v) => {
                            match lua_eval_bool(lua, src.as_str(), v.as_str()) {
                                Some(true) => {
                                    proof {
                                        assert(val_views(values@)[i as int]
                                            == opt_view(values@[i as int]));
                                    }
                                    bits_insert(&mut r, i);
                                }
                                _ => (),
                            }
                        }
                        None => (),
                    }
                }
            }
            i = i + 1;
        }
        r
    }

    /// Extends the filter's bitset cache to cover the interval, evaluating the
    /// test over the governing tag's cached values. A no-op when covered.
    pub(crate) fn ensure_filter(&mut self, stats: &mut Stats, tag_id: TagId, filter_id: FilterId,
        interval: Interval) -> (r: Result<(), Error>)
        requires
            old(self).wf(),
            old(self).is_filter_id(filter_id.0 as int),
            old(self).gov_of(old(self).filters@[old(self).filter_slot(filter_id.0 as int)].parent)
                == Some(tag_id.0 as int),
            interval.0 == 0,
            interval.1 as int <= old(self).tag_cached(tag_id.0 as int),
        ensures
            final(self).wf(),
            Engine::extends(*old(self), *final(self)),
            final(self).kinds@ == old(self).kinds@,
            final(self).files@ == old(self).files@,
            final(self).tags@ == old(self).tags@,
            final(self).distincts@ == old(self).distincts@,
            final(self).filters@.len() == old(self).filters@.len(),
            final(self).lua == old(self).lua,
            final(self).debug == old(self).debug,
            r is Ok,
            forall|k2: int| 0 <= k2 < old(self).filters@.len()
                && k2 != old(self).filter_slot(filter_id.0 as int)
                ==> #[trigger] final(self).filters@[k2] == old(self).filters@[k2],
            final(self).filter_end(filter_id.0 as int) == if interval.1 as int
                <= old(self).filter_end(filter_id.0 as int) {
                old(self).filter_end(filter_id.0 as int)
            } else {
                interval.1 as int
            },
            ({
                let ks = old(self).filter_slot(filter_id.0 as int);
                let a = old(self).filters@[ks];
                let b = final(self).filters@[ks];
                b.parent == a.parent && b.test == a.test && b.start == a.start
            }),
            interval.1 as int <= old(self).filter_end(filter_id.0 as int)
                ==> *final(self) == *old(self),
    {
        let num = filter_id.0;
        proof {
            assert(self.entry_wf(num as int - 1));
        }
        let k = match self.kinds[num - 1] {
            Kind::Filter(k) => k,
            _ => {
                proof {
                    assert(false);
                }
                return Err(Error::MissingId(Id::Filter(filter_id)));
            }
        };
        let end0 = self.filters[k].end;
        if interval.1 <= end0 {
            proof {
                assert(bits_elems(self.filters@[k as int].bits).finite());
            }
            let size = bits_count(&self.filters[k].bits);
            stats.add_size(Id::Filter(filter_id), size);
            return Ok(());
        }
        stats.add_interval(Id::Filter(filter_id), Interval(end0, interval.1));
        let tnum = tag_id.0;
        proof {
            lemma_gov_valid(*self, self.filters@[k as int].parent);
            assert(self.is_tag_id(tnum as int));
            assert(self.entry_wf(tnum as int - 1));
        }
        let g = match self.kinds[tnum - 1] {
            Kind::Tag(g) => g,
            _ => {
                proof {
                    assert(false);
                }
                return Err(Error::MissingId(Id::Tag(tag_id)));
            }
        };
        let ghost pre = *self;
        let newbits = Engine::filter_values(&self.lua, &self.filters[k].test,
            &self.tags[g].cache, end0, interval.1);
        let mut slot = self.filters.remove(k);
        bits_union(&mut slot.bits, &newbits);
        slot.end = interval.1;
        self.filters.insert(k, slot);
        proof {
            assert(self.filters@ =~= pre.filters@.update(k as int, self.filters@[k as int]));
            let f = self.filters@[k as int];
            let f0 = pre.filters@[k as int];
            assert(pre.filter_data_wf(k as int));
            lemma_gov_stable(pre, *self);
            assert(self.gov_of(f.parent) == pre.gov_of(f0.parent));
            assert(self.tag_vals(tnum as int) == pre.tag_vals(tnum as int));
            assert(bits_elems(f.bits) == bits_elems(f0.bits) + bits_elems(newbits));
            assert forall|n: int| #[trigger] bits_elems(f.bits).contains(n)
                implies 0 <= n < f.end as int by {
                if bits_elems(f0.bits).contains(n) {
                    assert(0 <= n < f0.end as int);
                }
            }
            match f.test {
                FilterTest::Direct(cmp, lit) => {
                    assert forall|n: int| 0 <= n < f.end as int
                        implies (#[trigger] bits_elems(f.bits).contains(n)
                            <==> direct_sat(cmp, lit@, self.tag_vals(tnum as int)[n])) by {
                        if n < f0.end as int {
                            assert(bits_elems(f0.bits).contains(n)
                                <==> direct_sat(cmp, lit@, pre.tag_vals(tnum as int)[n]));
                            assert(!bits_elems(newbits).contains(n));
                        } else {
                            assert(!bits_elems(f0.bits).contains(n));
                            assert(bits_elems(newbits).contains(n)
                                <==> direct_sat(cmp, lit@, val_views(pre.tags@[g as int].cache@)[n]));
                        }
                    }
                }
                FilterTest::Scripted(_) => {
                    assert forall|n: int| #[trigger] bits_elems(f.bits).contains(n)
                        implies self.tag_vals(tnum as int)[n] is Some by {
                        if bits_elems(f0.bits).contains(n) {
                        } else {
                            assert(bits_elems(newbits).contains(n));
                        }
                    }
                }
            }
            assert(self.filter_data_wf(k as int));
            lemma_wf_ensure(pre, *self);
        }
        Ok(())
    }
}


/// The accrued-value set of the bloom filter after scanning the values of
/// `[from, n)` left to right over a filter that started holding `base`: each
/// present value whose membership test answered `false` at its turn was
/// accrued, every other value left the filter as it was.
pub open spec fn distinct_scan(base: Set<Seq<char>>, vals: Seq<Option<Seq<char>>>, from: int,
    n: int) -> Set<Seq<char>>
    decreases n - from,
{
    if n <= from {
        base
    } else {
        let prev = distinct_scan(base, vals, from, n - 1);
        match vals[n - 1] {
            Option::Some(v) => if !bloom_hits(prev, v) {
                prev.insert(v)
            } else {
                prev
            },
            Option::None => prev,
        }
    }
}

/// Whether the scan marks index `n`: its value is present and the filter, as
/// accrued left to right up to `n`, does not yet answer `true` for it.
pub open spec fn distinct_marked(base: Set<Seq<char>>, vals: Seq<Option<Seq<char>>>, from: int,
    n: int) -> bool {
    &&& vals[n] is Some
    &&& !bloom_hits(distinct_scan(base, vals, from, n), vals[n]->Some_0)
}

impl Engine {
    /// Scans the range in order and marks exactly each index whose present
    /// value the bloom filter, as accrued left to right, has not seen;
    /// marked values are accrued. A marked index is therefore a true first
    /// occurrence over the whole scan so far, while a spurious answer may
    /// drop one — never mark a duplicate.
    fn distinct_values(bloom0: ethbloom::Bloom, values: &Vec<Option<String>>, from: usize,
        to: usize) -> (r: (bit_set::BitSet, ethbloom::Bloom))
        requires
            from <= to <= values@.len(),
            forall|j: int| 0 <= j < from && (#[trigger] val_views(values@)[j]) is Some
                ==> bloom_covers(bloom0, val_views(values@)[j]->Some_0),
        ensures
            bits_elems(r.0).finite(),
            forall|n: int| #[trigger] bits_elems(r.0).contains(n) ==> from <= n < to
                && val_views(values@)[n] is Some
                && (forall|m: int| 0 <= m < n ==> val_views(values@)[m] != val_views(values@)[n]),
            forall|j: int| 0 <= j < to && (#[trigger] val_views(values@)[j]) is Some
                ==> bloom_covers(r.1, val_views(values@)[j]->Some_0),
            forall|u: Seq<char>| bloom_covers(bloom0, u) ==> bloom_covers(r.1, u),
            bloom_elems(r.1) == distinct_scan(bloom_elems(bloom0), val_views(values@),
                from as int, to as int),
            forall|n: int| from <= n < to ==> (#[trigger] bits_elems(r.0).contains(n)
                <==> distinct_marked(bloom_elems(bloom0), val_views(values@), from as int, n)),
    {
        let mut bloom = bloom0;
        let mut r = bits_new();
        let mut i = from;
        while i < to
            invariant
                from <= i <= to,
                to <= values@.len(),
                bits_elems(r).finite(),
                forall|j: int| 0 <= j < from && (#[trigger] val_views(values@)[j]) is Some
                    ==> bloom_covers(bloom0, val_views(values@)[j]->Some_0),
                forall|n: int| #[trigger] bits_elems(r).contains(n) ==> from <= n < i
                    && val_views(values@)[n] is Some
                    && (forall|m: int| 0 <= m < n
                        ==> val_views(values@)[m] != val_views(values@)[n]),
                forall|j: int| 0 <= j < i && (#[trigger] val_views(values@)[j]) is Some
                    ==> bloom_covers(bloom, val_views(values@)[j]->Some_0),
                forall|u: Seq<char>| bloom_covers(bloom0, u) ==> bloom_covers(bloom, u),
                bloom_elems(bloom) == distinct_scan(bloom_elems(bloom0), val_views(values@),
                    from as int, i as int),
                forall|n: int| from <= n < i ==> (#[trigger] bits_elems(r).contains(n)
                    <==> distinct_marked(bloom_elems(bloom0), val_views(values@),
                        from as int, n)),
            decreases to - i,
        {
            let ghost prebloom = bloom;
            let ghost base = bloom_elems(bloom0);
            let ghost tv = val_views(values@);
            match &values[i] {
                Some(v) => {
                    proof {
                        assert(val_views(values@)[i as int] == opt_view(values@[i as int]));
                        assert(val_views(values@)[i as int] == Some(v@));
                        assert(distinct_scan(base, tv, from as int, i + 1 as int)
                            == if !bloom_hits(distinct_scan(base, tv, from as int, i as int),
                                tv[i as int]->Some_0) {
                                distinct_scan(base, tv, from as int, i as int).insert(v@)
                            } else {
                                distinct_scan(base, tv, from as int, i as int)
                            });
                    }
                    if !bloom_test(&bloom, v.as_str()) {
                        proof {
                            // a value seen before would already be covered
                            assert forall|m: int| 0 <= m < i as int
                                implies val_views(values@)[m] != val_views(values@)[i as int] by {
                                if val_views(values@)[m] == val_views(values@)[i as int] {
                                    assert(val_views(values@)[m] is Some);
                                    assert(bloom_covers(bloom, v@));
                                }
                            }
                        }
                        bits_insert(&mut r, i);
                        bloom_accrue(&mut bloom, v.as_str());
                        proof {
                            assert forall|j: int| 0 <= j <= i as int
                                && (#[trigger] val_views(values@)[j]) is Some
                                implies bloom_covers(bloom, val_views(values@)[j]->Some_0) by {
                                if j < i as int {
                                    assert(bloom_covers(prebloom, val_views(values@)[j]->Some_0));
                                }
                            }
                            assert(distinct_marked(base, tv, from as int, i as int));
                            assert(bloom_elems(bloom)
                                == distinct_scan(base, tv, from as int, i + 1 as int));
                        }
                    } else {
                        proof {
                            assert(!distinct_marked(base, tv, from as int, i as int));
                            assert(bloom_elems(bloom)
                                == distinct_scan(base, tv, from as int, i + 1 as int));
                        }
                    }
                }
                None => {
                    proof {
                        assert(val_views(values@)[i as int] == opt_view(values@[i as int]));
                        assert(val_views(values@)[i as int] is None);
                        assert(distinct_scan(base, tv, from as int, i + 1 as int)
                            == distinct_scan(base, tv, from as int, i as int));
                        assert(!distinct_marked(base, tv, from as int, i as int));
                    }
                }
            }
            i = i + 1;
        }
        (r, bloom)
    }

    /// Extends the distinct node's membership bitset to cover the interval,
    /// testing each of the governing tag's values against the bloom filter.
    /// A no-op when covered.
    pub(crate) fn ensure_distinct(&mut self, stats: &mut Stats, tag_id: TagId,
        distinct_id: DistinctId, interval: Interval) -> (r: Result<(), Error>)
        requires
            old(self).wf(),
            old(self).is_distinct_id(distinct_id.0 as int),
            old(self).gov_of(
                old(self).distincts@[old(self).distinct_slot(distinct_id.0 as int)].parent)
                == Some(tag_id.0 as int),
            interval.0 == 0,
            interval.1 as int <= old(self).tag_cached(tag_id.0 as int),
        ensures
            final(self).wf(),
            Engine::extends(*old(self), *final(self)),
            final(self).kinds@ == old(self).kinds@,
            final(self).files@ == old(self).files@,
            final(self).tags@ == old(self).tags@,
            final(self).filters@ == old(self).filters@,
            final(self).distincts@.len() == old(self).distincts@.len(),
            final(self).lua == old(self).lua,
            final(self).debug == old(self).debug,
            r is Ok,
            forall|k2: int| 0 <= k2 < old(self).distincts@.len()
                && k2 != old(self).distinct_slot(distinct_id.0 as int)
                ==> #[trigger] final(self).distincts@[k2] == old(self).distincts@[k2],
            final(self).distinct_end(distinct_id.0 as int) == if interval.1 as int
                <= old(self).distinct_end(distinct_id.0 as int) {
                old(self).distinct_end(distinct_id.0 as int)
            } else {
                interval.1 as int
            },
            ({
                let ks = old(self).distinct_slot(distinct_id.0 as int);
                let a = old(self).distincts@[ks];
                let b = final(self).distincts@[ks];
                b.parent == a.parent && b.start == a.start
            }),
            interval.1 as int <= old(self).distinct_end(distinct_id.0 as int)
                ==> *final(self) == *old(self),
            // the extension is exactly the left-to-right scan over the
            // governing tag's values, against the bloom as it accrues
            interval.1 as int > old(self).distinct_end(distinct_id.0 as int) ==> ({
                let ks = old(self).distinct_slot(distinct_id.0 as int);
                let a = old(self).distincts@[ks];
                let b = final(self).distincts@[ks];
                let tv = old(self).tag_vals(tag_id.0 as int);
                &&& bloom_elems(b.bloom) == distinct_scan(bloom_elems(a.bloom), tv,
                    a.end as int, interval.1 as int)
                &&& forall|n: int| #[trigger] bits_elems(b.bits).contains(n)
                    <==> bits_elems(a.bits).contains(n)
                        || (a.end as int <= n < interval.1 as int
                            && distinct_marked(bloom_elems(a.bloom), tv, a.end as int, n))
            }),
    {
        let num = distinct_id.0;
        proof {
            assert(self.entry_wf(num as int - 1));
        }
        let k = match self.kinds[num - 1] {
            Kind::Distinct(k) => k,
            _ => {
                proof {
                    assert(false);
                }
                return Err(Error::MissingId(Id::Distinct(distinct_id)));
            }
        };
        let end0 = self.distincts[k].end;
        if interval.1 <= end0 {
            proof {
                assert(bits_elems(self.distincts@[k as int].bits).finite());
            }
            let size = bits_count(&self.distincts[k].bits);
            stats.add_size(Id::Distinct(distinct_id), size);
            return Ok(());
        }
        stats.add_interval(Id::Distinct(distinct_id), Interval(end0, interval.1));
        let tnum = tag_id.0;
        proof {
            lemma_gov_valid(*self, self.distincts@[k as int].parent);
            assert(self.is_tag_id(tnum as int));
            assert(self.entry_wf(tnum as int - 1));
        }
        let g = match self.kinds[tnum - 1] {
            Kind::Tag(g) => g,
            _ => {
                proof {
                    assert(false);
                }
                return Err(Error::MissingId(Id::Tag(tag_id)));
            }
        };
        let ghost pre = *self;
        let slot = self.distincts.remove(k);
        proof {
            assert(pre.distinct_data_wf(k as int));
            assert(end0 as int <= pre.tag_cached(tnum as int));
        }
        let (newbits, newbloom) = Engine::distinct_values(slot.bloom, &self.tags[g].cache,
            end0, interval.1);
        let merged = DistinctSlot {
            parent: slot.parent,
            start: slot.start,
            end: interval.1,
            bits: {
                let mut bits = slot.bits;
                bits_union(&mut bits, &newbits);
                bits
            },
            bloom: newbloom,
        };
        self.distincts.insert(k, merged);
        proof {
            assert(self.distincts@ =~= pre.distincts@.update(k as int, self.distincts@[k as int]));
            let d = self.distincts@[k as int];
            let d0 = pre.distincts@[k as int];
            lemma_gov_stable(pre, *self);
            assert(self.gov_of(d.parent) == pre.gov_of(d0.parent));
            assert(self.tag_vals(tnum as int) == pre.tag_vals(tnum as int));
            assert(bits_elems(d.bits) == bits_elems(d0.bits) + bits_elems(newbits));
            let tv = self.tag_vals(tnum as int);
            assert(tv == val_views(pre.tags@[g as int].cache@));
            assert forall|n: int| #[trigger] bits_elems(d.bits).contains(n)
                implies 0 <= n < d.end as int && tv[n] is Some
                    && (forall|m: int| 0 <= m < n ==> tv[m] != tv[n]) by {
                if bits_elems(d0.bits).contains(n) {
                    assert(0 <= n < d0.end as int);
                    assert(tv[n] is Some);
                } else {
                    assert(bits_elems(newbits).contains(n));
                }
            }
            assert forall|n: int| 0 <= n < d.end as int && (#[trigger] tv[n]) is Some
                implies bloom_covers(d.bloom, tv[n]->Some_0) by {
            }
            assert(self.distinct_data_wf(k as int));
            lemma_wf_ensure(pre, *self);
        }
        Ok(())
    }
}


/// The filters among the steps, in step order.
pub open spec fn filter_steps(steps: Seq<Id>) -> Seq<FilterId>
    decreases steps.len(),
{
    if steps.len() == 0 {
        Seq::empty()
    } else {
        filter_steps(steps.drop_last()) + if steps.last() is Filter {
            seq![steps.last()->Filter_0]
        } else {
            Seq::empty()
        }
    }
}

/// The distinct nodes among the steps, in step order.
pub open spec fn distinct_steps(steps: Seq<Id>) -> Seq<DistinctId>
    decreases steps.len(),
{
    if steps.len() == 0 {
        Seq::empty()
    } else {
        distinct_steps(steps.drop_last()) + if steps.last() is Distinct {
            seq![steps.last()->Distinct_0]
        } else {
            Seq::empty()
        }
    }
}

/// The linearized ancestor chain of a queried identifier, from the root file
/// down to the leaf.
pub struct Plan {
    pub(crate) steps: Vec<Id>,
}

impl Plan {
    pub closed spec fn spec_steps(self) -> Seq<Id> {
        self.steps@
    }

    pub fn new(steps: Vec<Id>) -> (r: Plan)
        ensures
            r.spec_steps() == steps@,
    {
        Plan { steps }
    }

    /// The root file of the plan.
    pub fn file_id(&self) -> (r: FileId)
        requires
            self.spec_steps().len() >= 1,
            self.spec_steps()[0] is File,
        ensures
            Id::File(r) == self.spec_steps()[0],
    {
        match self.steps[0] {
            Id::File(f) => f,
            _ => {
                proof {
                    assert(false);
                }
                FileId(0)
            }
        }
    }

    /// The filters on the plan: exactly the filter steps, in plan order.
    pub fn filter_ids(&self) -> (r: Vec<FilterId>)
        ensures
            r@ == filter_steps(self.spec_steps()),
    {
        let mut r: Vec<FilterId> = Vec::new();
        let mut i: usize = 0;
        while i < self.steps.len()
            invariant
                i <= self.steps@.len(),
                r@ == filter_steps(self.steps@.take(i as int)),
            decreases self.steps@.len() - i,
        {
            proof {
                assert(self.steps@.take(i + 1 as int).drop_last() =~= self.steps@.take(i as int));
                assert(self.steps@.take(i + 1 as int).last() == self.steps@[i as int]);
            }
            match self.steps[i] {
                Id::Filter(f) => {
                    r.push(f);
                    proof {
                        assert(r@ =~= filter_steps(self.steps@.take(i + 1 as int)));
                    }
                }
                _ => {
                    proof {
                        assert(r@ =~= filter_steps(self.steps@.take(i + 1 as int)));
                    }
                }
            }
            i = i + 1;
        }
        proof {
            assert(self.steps@.take(self.steps@.len() as int) =~= self.steps@);
        }
        r
    }

    /// The distinct nodes on the plan: exactly the distinct steps, in plan
    /// order.
    pub fn distinct_ids(&self) -> (r: Vec<DistinctId>)
        ensures
            r@ == distinct_steps(self.spec_steps()),
    {
        let mut r: Vec<DistinctId> = Vec::new();
        let mut i: usize = 0;
        while i < self.steps.len()
            invariant
                i <= self.steps@.len(),
                r@ == distinct_steps(self.steps@.take(i as int)),
            decreases self.steps@.len() - i,
        {
            proof {
                assert(self.steps@.take(i + 1 as int).drop_last() =~= self.steps@.take(i as int));
                assert(self.steps@.take(i + 1 as int).last() == self.steps@[i as int]);
            }
            match self.steps[i] {
                Id::Distinct(d) => {
                    r.push(d);
                    proof {
                        assert(r@ =~= distinct_steps(self.steps@.take(i + 1 as int)));
                    }
                }
                _ => {
                    proof {
                        assert(r@ =~= distinct_steps(self.steps@.take(i + 1 as int)));
                    }
                }
            }
            i = i + 1;
        }
        proof {
            assert(self.steps@.take(self.steps@.len() as int) =~= self.steps@);
        }
        r
    }
}

impl Engine {
    /// One link of a plan: the step's stored parent is the previous step.
    pub(crate) open spec fn step_ok(self, step: Id, prev: Id) -> bool {
        match step {
            Id::Tag(t) => self.is_tag_id(t.0 as int) && prev is File
                && self.tag_file(t.0 as int) == prev.spec_num(),
            Id::Filter(f) => self.is_filter_id(f.0 as int)
                && self.filters@[self.filter_slot(f.0 as int)].parent == prev,
            Id::Distinct(d) => self.is_distinct_id(d.0 as int)
                && self.distincts@[self.distinct_slot(d.0 as int)].parent == prev,
            Id::File(_) => false,
        }
    }

    /// A valid plan against this engine: it starts at a registered file and
    /// each later step's parent is the step before it; only the second
    /// position can hold a tag.
    pub closed spec fn plan_ok(self, steps: Seq<Id>) -> bool {
        &&& steps.len() >= 1
        &&& steps[0] is File
        &&& self.is_file_id(steps[0].spec_num())
        &&& forall|i: int| 1 <= i < steps.len() ==> #[trigger] self.step_ok(steps[i], steps[i - 1])
        &&& forall|i: int| 2 <= i < steps.len() ==> !((#[trigger] steps[i]) is Tag)
    }

    /// The leaf's useful count: cached lines for files and tags, set bits for
    /// filters and distinct nodes.
    pub closed spec fn leaf_count(self, id: Id) -> int {
        match id {
            Id::File(f) => self.file_cached(f.0 as int),
            Id::Tag(t) => self.tag_cached(t.0 as int),
            Id::Filter(f) => self.filter_bits(f.0 as int).len() as int,
            Id::Distinct(d) => self.distinct_bits(d.0 as int).len() as int,
        }
    }
}

/// In a well-formed engine, a plan of two or more steps has the tag at its
/// second position, and that tag governs every later step.
pub(crate) proof fn lemma_plan_shape(e: Engine, steps: Seq<Id>, i: int)
    requires
        e.wf(),
        e.plan_ok(steps),
        1 <= i < steps.len(),
    ensures
        steps[1] is Tag,
        e.is_tag_id(steps[1].spec_num()),
        e.tag_file(steps[1].spec_num()) == steps[0].spec_num(),
        e.gov_of(steps[i]) == Some(steps[1].spec_num()),
        i >= 2 ==> !(steps[i] is Tag) && !(steps[i] is File),
    decreases i,
{
    if i == 1 {
        assert(e.step_ok(steps[1], steps[0]));
        match steps[1] {
            Id::Tag(_) => {}
            Id::Filter(f) => {
                assert(e.entry_wf(f.0 - 1));
                assert(e.parent_ok(steps[0]));
                assert(false);
            }
            Id::Distinct(d) => {
                assert(e.entry_wf(d.0 - 1));
                assert(e.parent_ok(steps[0]));
                assert(false);
            }
            Id::File(_) => {
                assert(false);
            }
        }
    } else {
        lemma_plan_shape(e, steps, i - 1);
        assert(e.step_ok(steps[i], steps[i - 1]));
        match steps[i] {
            Id::Filter(f) => {
                assert(e.entry_wf(f.0 - 1));
            }
            Id::Distinct(d) => {
                assert(e.entry_wf(d.0 - 1));
            }
            Id::Tag(_) => {
                assert(false);
            }
            Id::File(_) => {
                assert(false);
            }
        }
    }
}

/// A plan stays valid across operations that keep registry entries and
/// entity links.
pub(crate) proof fn lemma_plan_stable(pre: Engine, post: Engine, steps: Seq<Id>)
    requires
        pre.plan_ok(steps),
        post.kinds@ == pre.kinds@,
        post.files@.len() == pre.files@.len(),
        post.tags@.len() == pre.tags@.len(),
        forall|k: int| 0 <= k < pre.tags@.len()
            ==> (#[trigger] post.tags@[k]).file == pre.tags@[k].file,
        post.filters@.len() == pre.filters@.len(),
        forall|k: int| 0 <= k < pre.filters@.len()
            ==> (#[trigger] post.filters@[k]).parent == pre.filters@[k].parent,
        post.distincts@.len() == pre.distincts@.len(),
        forall|k: int| 0 <= k < pre.distincts@.len()
            ==> (#[trigger] post.distincts@[k]).parent == pre.distincts@[k].parent,
    ensures
        post.plan_ok(steps),
{
    assert forall|i: int| 1 <= i < steps.len()
        implies #[trigger] post.step_ok(steps[i], steps[i - 1]) by {
        assert(pre.step_ok(steps[i], steps[i - 1]));
    }
}


impl Engine {
    /// The plan of an identifier: its ancestor chain, root file first.
    /// Rejected exactly when the identifier is not registered.
    pub(crate) fn plan_steps(&self, id: Id) -> (r: Result<Vec<Id>, Error>)
        requires
            self.wf(),
        ensures
            r is Ok <==> self.is_registered(id),
            !self.is_registered(id) ==> r == Err::<Vec<Id>, Error>(Error::MissingId(id)),
            r matches Ok(steps) ==> self.plan_ok(steps@) && steps@.last() == id,
        decreases id.spec_num(),
    {
        match id {
            Id::File(f) => {
                if self.is_file(f) {
                    let mut steps: Vec<Id> = Vec::new();
                    steps.push(id);
                    Ok(steps)
                } else {
                    Err(Error::MissingId(id))
                }
            }
            Id::Tag(t) => {
                match self.tag_slot_of(t) {
                    Some(k) => {
                        proof {
                            assert(self.entry_wf(t.0 as int - 1));
                        }
                        let fid = self.tags[k].file;
                        match self.plan_steps(Id::File(FileId(fid))) {
                            Ok(mut steps) => {
                                let ghost s0 = steps@;
                                steps.push(id);
                                proof {
                                    if s0.len() > 1 {
                                        let l = s0.len() - 1;
                                        assert(self.step_ok(s0[l], s0[l - 1]));
                                        assert(false);
                                    }
                                    assert(steps@[0] == s0[0]);
                                    assert(steps@.last() == id);
                                    assert(self.step_ok(id, Id::File(FileId(fid))));
                                    assert forall|i: int| 1 <= i < steps@.len()
                                        implies #[trigger] self.step_ok(steps@[i], steps@[i - 1])
                                        by {}
                                    assert(self.plan_ok(steps@));
                                }
                                Ok(steps)
                            }
                            Err(e) => {
                                proof {
                                    assert(false);
                                }
                                Err(e)
                            }
                        }
                    }
                    None => Err(Error::MissingId(id)),
                }
            }
            Id::Filter(f) => {
                if f.0 >= 1 && f.0 <= self.kinds.len() {
                    proof {
                        assert(self.entry_wf(f.0 as int - 1));
                    }
                    match self.kinds[f.0 - 1] {
                        Kind::Filter(k) => {
                            let parent = self.filters[k].parent;
                            match self.plan_steps(parent) {
                                Ok(mut steps) => {
                                    let ghost s0 = steps@;
                                    steps.push(id);
                                    proof {
                                        assert(steps@[0] == s0[0]);
                                        assert(self.step_ok(id, parent));
                                        assert forall|i: int| 1 <= i < steps@.len()
                                            implies #[trigger] self.step_ok(steps@[i],
                                                steps@[i - 1]) by {}
                                        assert forall|i: int| 2 <= i < steps@.len()
                                            implies !((#[trigger] steps@[i]) is Tag) by {
                                            if i < s0.len() {
                                            } else {
                                                assert(steps@[i] == id);
                                            }
                                        }
                                        assert(self.plan_ok(steps@));
                                    }
                                    Ok(steps)
                                }
                                Err(e) => {
                                    proof {
                                        assert(false);
                                    }
                                    Err(e)
                                }
                            }
                        }
                        _ => Err(Error::MissingId(id)),
                    }
                } else {
                    Err(Error::MissingId(id))
                }
            }
            Id::Distinct(d) => {
                if d.0 >= 1 && d.0 <= self.kinds.len() {
                    proof {
                        assert(self.entry_wf(d.0 as int - 1));
                    }
                    match self.kinds[d.0 - 1] {
                        Kind::Distinct(k) => {
                            let parent = self.distincts[k].parent;
                            match self.plan_steps(parent) {
                                Ok(mut steps) => {
                                    let ghost s0 = steps@;
                                    steps.push(id);
                                    proof {
                                        assert(steps@[0] == s0[0]);
                                        assert(self.step_ok(id, parent));
                                        assert forall|i: int| 1 <= i < steps@.len()
                                            implies #[trigger] self.step_ok(steps@[i],
                                                steps@[i - 1]) by {}
                                        assert forall|i: int| 2 <= i < steps@.len()
                                            implies !((#[trigger] steps@[i]) is Tag) by {
                                            if i < s0.len() {
                                            } else {
                                                assert(steps@[i] == id);
                                            }
                                        }
                                        assert(self.plan_ok(steps@));
                                    }
                                    Ok(steps)
                                }
                                Err(e) => {
                                    proof {
                                        assert(false);
                                    }
                                    Err(e)
                                }
                            }
                        }
                        _ => Err(Error::MissingId(id)),
                    }
                } else {
                    Err(Error::MissingId(id))
                }
            }
        }
    }
}

/// A run of spaces.
pub open spec fn spaces(n: int) -> Seq<char> {
    Seq::new(if n >= 0 { n as nat } else { 0 }, |i: int| ' ')
}

/// Left-justifies a string to fifteen characters; longer strings are kept.
pub open spec fn pad15(s: Seq<char>) -> Seq<char> {
    if s.len() >= 15 {
        s
    } else {
        s + spaces(15 - s.len())
    }
}

/// The rendered annotation line of one tag on one surviving line: the padded
/// bracketed name followed by the quoted value, or `N/A` for a missing one.
/// The value stands verbatim between the quotes — quotes, backslashes and
/// control characters in it are not escaped.
pub open spec fn spec_tag_line(name: Seq<char>, v: Option<Seq<char>>) -> Seq<char> {
    match v {
        Option::Some(x) => "    "@ + pad15(seq!['['] + name + seq![']']) + seq![' ', '"'] + x
            + seq!['"'],
        Option::None => "    ["@ + pad15(name) + "] N/A"@,
    }
}

impl Engine {
    /// The annotation lines of all tags bound to the file among the first
    /// `upto` identifiers, in registration order, for line index `n`.
    pub closed spec fn tag_lines(self, fid: int, n: int, upto: int) -> Seq<Seq<char>>
        decreases upto,
    {
        if upto <= 0 {
            Seq::empty()
        } else {
            self.tag_lines(fid, n, upto - 1) + if self.is_tag_id(upto)
                && self.tag_file(upto) == fid {
                seq![spec_tag_line(self.tag_name(upto), self.tag_vals(upto)[n])]
            } else {
                Seq::empty()
            }
        }
    }

    /// The rendered block of one surviving line: the raw line, one annotation
    /// line per tag bound to the root file, and an empty separator line.
    pub closed spec fn render_block(self, fid: int, n: int) -> Seq<Seq<char>> {
        seq![self.file_lines(fid)[n]] + self.tag_lines(fid, n, self.id_count())
            + seq![Seq::<char>::empty()]
    }

    /// Whether line index `n` is in every filter and distinct bitset on the
    /// plan; with none on the plan every line survives.
    pub closed spec fn survives(self, steps: Seq<Id>, n: int) -> bool {
        self.mask_upto(steps, steps.len() as int, n)
    }

    /// `survives`, restricted to the plan's first `upto` steps.
    pub(crate) open spec fn mask_upto(self, steps: Seq<Id>, upto: int, n: int) -> bool {
        forall|i: int| 1 <= i < upto && i < steps.len() ==> match #[trigger] steps[i] {
            Id::Filter(f) => self.filter_bits(f.0 as int).contains(n),
            Id::Distinct(d) => self.distinct_bits(d.0 as int).contains(n),
            _ => true,
        }
    }

    /// The lines `take` renders: walking line indices from `n`, each survivor
    /// emits its block until `count` survivors have been emitted (the first
    /// block is emitted even when `count` is zero, matching the driver, which
    /// checks the quota only after emitting) or the covered interval ends.
    pub closed spec fn render_from(self, steps: Seq<Id>, covered: int, n: int, emitted: int,
        count: int) -> Seq<Seq<char>>
        decreases covered - n,
    {
        if n < 0 || n >= covered {
            Seq::empty()
        } else if self.survives(steps, n) {
            self.render_block(steps[0].spec_num(), n) + if emitted + 1 >= count {
                Seq::empty()
            } else {
                self.render_from(steps, covered, n + 1, emitted + 1, count)
            }
        } else {
            self.render_from(steps, covered, n + 1, emitted, count)
        }
    }

    /// Renders one tag's annotation line.
    fn tag_line_exec(name: &str, v: &Option<String>) -> (r: String)
        ensures
            r@ == spec_tag_line(name@, opt_view(*v)),
    {
        proof {
            reveal_strlit("[");
            reveal_strlit("]");
            reveal_strlit(" ");
            reveal_strlit("\"");
        }
        match v {
            Some(x) => {
                let mut field = String::from_str("[");
                field.append(name);
                field.append("]");
                let ghost fieldv = field@;
                proof {
                    assert(fieldv =~= seq!['['] + name@ + seq![']']);
                }
                let mut width = field.as_str().unicode_len();
                while width < 15
                    invariant
                        width == field@.len(),
                        field@ =~= fieldv + spaces(width - fieldv.len()),
                        fieldv.len() <= width,
                        width <= 15 || width == fieldv.len(),
                    decreases 15 - width,
                {
                    field.append(" ");
                    proof {
                        reveal_strlit(" ");
                        assert(" "@ =~= seq![' ']);
                        assert(field@ =~= fieldv + spaces(field@.len() - fieldv.len()));
                    }
                    width = width + 1;
                }
                proof {
                    assert(field@ =~= pad15(fieldv));
                }
                let mut line = String::from_str("    ");
                line.append(field.as_str());
                line.append(" ");
                line.append("\"");
                line.append(x.as_str());
                line.append("\"");
                proof {
                    assert(line@ =~= spec_tag_line(name@, opt_view(*v)));
                }
                line
            }
            None => {
                let mut field = String::from_str(name);
                let ghost fieldv = field@;
                let mut width = field.as_str().unicode_len();
                while width < 15
                    invariant
                        width == field@.len(),
                        field@ =~= fieldv + spaces(width - fieldv.len()),
                        fieldv.len() <= width,
                        width <= 15 || width == fieldv.len(),
                    decreases 15 - width,
                {
                    field.append(" ");
                    proof {
                        reveal_strlit(" ");
                        assert(" "@ =~= seq![' ']);
                        assert(field@ =~= fieldv + spaces(field@.len() - fieldv.len()));
                    }
                    width = width + 1;
                }
                proof {
                    assert(field@ =~= pad15(fieldv));
                }
                let mut line = String::from_str("    [");
                line.append(field.as_str());
                line.append("] N/A");
                proof {
                    assert(line@ =~= spec_tag_line(name@, opt_view(*v)));
                }
                line
            }
        }
    }

    /// Appends the rendered block of one surviving line.
    fn render_block_exec(&self, out: &mut Vec<String>, file_id: FileId, n: usize)
        requires
            self.wf(),
            self.is_file_id(file_id.0 as int),
            n < self.file_cached(file_id.0 as int),
            forall|t: int| #[trigger] self.is_tag_id(t) && self.tag_file(t) == file_id.0 as int
                ==> self.tag_cached(t) > n,
        ensures
            str_views(final(out)@) == str_views(old(out)@)
                + self.render_block(file_id.0 as int, n as int),
    {
        let ghost base = str_views(old(out)@);
        let fnum = file_id.0;
        proof {
            assert(self.entry_wf(fnum as int - 1));
        }
        let j = match self.kinds[fnum - 1] {
            Kind::File(j) => j,
            _ => {
                proof {
                    assert(false);
                }
                return;
            }
        };
        let line = self.files[j].cache[n].clone();
        proof {
            assert(self.file_wf(j as int));
            assert(n < self.files@[j as int].lines@.len());
            assert(n < self.file_lines(fnum as int).len());
            assert(line@ == self.file_lines(fnum as int)[n as int]);
        }
        out.push(line);
        proof {
            assert(str_views(out@) =~= base + seq![self.file_lines(fnum as int)[n as int]]
                + self.tag_lines(fnum as int, n as int, 0));
        }
        let total = self.kinds.len();
        let mut i: usize = 0;
        while i < total
            invariant
                self.wf(),
                i <= total,
                total == self.kinds@.len(),
                self.is_file_id(fnum as int),
                n < self.file_cached(fnum as int),
                forall|t: int| #[trigger] self.is_tag_id(t)
                    && self.tag_file(t) == fnum as int ==> self.tag_cached(t) > n,
                str_views(out@) =~= base + seq![self.file_lines(fnum as int)[n as int]]
                    + self.tag_lines(fnum as int, n as int, i as int),
            decreases total - i,
        {
            proof {
                assert(self.entry_wf(i as int));
            }
            let ghost before = str_views(out@);
            let is_match = match self.kinds[i] {
                Kind::Tag(k) => self.tags[k].file == fnum,
                _ => false,
            };
            if is_match {
                proof {
                    assert(self.is_tag_id(i as int + 1));
                    assert(self.tag_cached(i as int + 1) > n);
                }
                let k = match self.kinds[i] {
                    Kind::Tag(k) => k,
                    _ => {
                        proof {
                            assert(false);
                        }
                        return;
                    }
                };
                let tl = Engine::tag_line_exec(self.tags[k].name.as_str(), &self.tags[k].cache[n]);
                out.push(tl);
                proof {
                    assert(opt_view(self.tags@[k as int].cache@[n as int])
                        == self.tag_vals(i as int + 1)[n as int]);
                    assert(str_views(out@) =~= before
                        + seq![spec_tag_line(self.tag_name(i as int + 1),
                            self.tag_vals(i as int + 1)[n as int])]);
                    assert(str_views(out@) =~= base
                        + seq![self.file_lines(fnum as int)[n as int]]
                        + self.tag_lines(fnum as int, n as int, i as int + 1));
                }
            } else {
                proof {
                    assert(self.tag_lines(fnum as int, n as int, i as int + 1)
                        =~= self.tag_lines(fnum as int, n as int, i as int));
                }
            }
            i = i + 1;
        }
        proof {
            assert(str_views(out@) =~= base + seq![self.file_lines(fnum as int)[n as int]]
                + self.tag_lines(fnum as int, n as int, total as int));
            assert(total as int == self.id_count());
        }
        let ghost done = str_views(out@);
        let empty_line = String::new();
        proof {
            assert(empty_line@ =~= Seq::<char>::empty());
        }
        out.push(empty_line);
        proof {
            assert(str_views(out@) =~= done + seq![Seq::<char>::empty()]);
            assert(str_views(out@) =~= base + self.render_block(fnum as int, n as int));
        }
    }

    /// The leaf's useful count, read from its cache.
    fn leaf_count_exec(&self, id: Id) -> (r: usize)
        requires
            self.wf(),
            self.is_registered(id),
        ensures
            r as int == self.leaf_count(id),
    {
        proof {
            assert(self.entry_wf(id.spec_num() - 1));
        }
        match id {
            Id::File(f) => {
                match self.kinds[f.0 - 1] {
                    Kind::File(j) => self.files[j].cache.len(),
                    _ => {
                        proof {
                            assert(false);
                        }
                        0
                    }
                }
            }
            Id::Tag(t) => {
                match self.kinds[t.0 - 1] {
                    Kind::Tag(k) => self.tags[k].cache.len(),
                    _ => {
                        proof {
                            assert(false);
                        }
                        0
                    }
                }
            }
            Id::Filter(f) => {
                match self.kinds[f.0 - 1] {
                    Kind::Filter(k) => {
                        proof {
                            assert(self.filter_data_wf(k as int));
                        }
                        bits_count(&self.filters[k].bits)
                    }
                    _ => {
                        proof {
                            assert(false);
                        }
                        0
                    }
                }
            }
            Id::Distinct(d) => {
                match self.kinds[d.0 - 1] {
                    Kind::Distinct(k) => {
                        proof {
                            assert(self.distinct_data_wf(k as int));
                        }
                        bits_count(&self.distincts[k].bits)
                    }
                    _ => {
                        proof {
                            assert(false);
                        }
                        0
                    }
                }
            }
        }
    }
}


impl Engine {
    /// Every non-root step of the plan has its cache extended to `c`.
    pub open spec fn plan_ensured_upto(self, steps: Seq<Id>, upto: int, c: int) -> bool {
        forall|i: int| 1 <= i < upto && i < steps.len() ==> match #[trigger] steps[i] {
            Id::Tag(t) => self.tag_cached(t.0 as int) >= c,
            Id::Filter(f) => self.filter_end(f.0 as int) >= c,
            Id::Distinct(d) => self.distinct_end(d.0 as int) >= c,
            Id::File(_) => true,
        }
    }
}

/// The least covered prefix any `Take` reaches before its driver may stop:
/// the first read window — the requested count capped at the batch maximum —
/// clipped to the file's length. A driver that stops earlier has either
/// filled its quota at the leaf or run out of file.
pub open spec fn guaranteed_cover(count: int, total: int) -> int {
    let cap = if count <= MAX_BATCH_SIZE as int {
        count
    } else {
        MAX_BATCH_SIZE as int
    };
    if cap <= total {
        cap
    } else {
        total
    }
}

/// Under a growth step that keeps the registry, every identifier keeps its
/// kind and its cache bound and bitset only grow.
pub(crate) proof fn lemma_counts_monotone(pre: Engine, post: Engine)
    requires
        Engine::extends(pre, post),
        post.kinds@ == pre.kinds@,
    ensures
        forall|id: int| pre.is_file_id(id) ==> #[trigger] post.is_file_id(id)
            && post.file_cached(id) >= pre.file_cached(id)
            && post.file_lines(id) == pre.file_lines(id),
        forall|id: int| pre.is_tag_id(id) ==> #[trigger] post.is_tag_id(id)
            && post.tag_cached(id) >= pre.tag_cached(id),
        forall|id: int| pre.is_filter_id(id) ==> #[trigger] post.is_filter_id(id)
            && post.filter_end(id) >= pre.filter_end(id)
            && pre.filter_bits(id).subset_of(post.filter_bits(id)),
        forall|id: int| pre.is_distinct_id(id) ==> #[trigger] post.is_distinct_id(id)
            && post.distinct_end(id) >= pre.distinct_end(id)
            && pre.distinct_bits(id).subset_of(post.distinct_bits(id)),
{
    assert forall|id: int| pre.is_file_id(id) implies #[trigger] post.is_file_id(id)
        && post.file_cached(id) >= pre.file_cached(id)
        && post.file_lines(id) == pre.file_lines(id) by {
        let j = pre.file_slot(id);
        assert(post.files@[j].lines == pre.files@[j].lines);
        assert(str_views(post.files@[j].lines@) =~= str_views(pre.files@[j].lines@));
    }
    assert forall|id: int| pre.is_tag_id(id) implies #[trigger] post.is_tag_id(id)
        && post.tag_cached(id) >= pre.tag_cached(id) by {
        let k = pre.tag_slot(id);
        assert(post.tags@[k].cache@.len() >= pre.tags@[k].cache@.len());
    }
    assert forall|id: int| pre.is_filter_id(id) implies #[trigger] post.is_filter_id(id)
        && post.filter_end(id) >= pre.filter_end(id)
        && pre.filter_bits(id).subset_of(post.filter_bits(id)) by {
        let k = pre.filter_slot(id);
        assert(pre.filters@[k].end <= post.filters@[k].end);
        assert(bits_elems(pre.filters@[k].bits).subset_of(bits_elems(post.filters@[k].bits)));
    }
    assert forall|id: int| pre.is_distinct_id(id) implies #[trigger] post.is_distinct_id(id)
        && post.distinct_end(id) >= pre.distinct_end(id)
        && pre.distinct_bits(id).subset_of(post.distinct_bits(id)) by {
        let k = pre.distinct_slot(id);
        assert(pre.distincts@[k].end <= post.distincts@[k].end);
        assert(bits_elems(pre.distincts@[k].bits).subset_of(bits_elems(post.distincts@[k].bits)));
    }
}


impl Engine {
    /// The batch-doubling read loop of one `Take`: grows the file cache in
    /// doubling windows and propagates the growth through every step of the
    /// plan, until the leaf holds enough survivors or the file is exhausted.
    /// Returns the covered prefix `[0, covered)` of the root file.
    fn drive(&mut self, stats: &mut Stats, plan: &Plan, count: usize) -> (covered: usize)
        requires
            old(self).wf(),
            old(self).plan_ok(plan.spec_steps()),
        ensures
            final(self).wf(),
            Engine::extends(*old(self), *final(self)),
            final(self).kinds@ == old(self).kinds@,
            final(self).files@.len() == old(self).files@.len(),
            final(self).tags@.len() == old(self).tags@.len(),
            final(self).filters@.len() == old(self).filters@.len(),
            final(self).distincts@.len() == old(self).distincts@.len(),
            final(self).debug == old(self).debug,
            forall|k: int| 0 <= k < old(self).tags@.len()
                ==> (#[trigger] final(self).tags@[k]).pattern == old(self).tags@[k].pattern
                    && final(self).tags@[k].transform == old(self).tags@[k].transform,
            final(self).plan_ok(plan.spec_steps()),
            ({
                let steps = plan.spec_steps();
                let fid = steps[0].spec_num();
                &&& covered as int <= final(self).file_cached(fid)
                &&& final(self).file_cached(fid) <= final(self).file_lines(fid).len()
                &&& final(self).file_lines(fid) == old(self).file_lines(fid)
                &&& final(self).plan_ensured_upto(steps, steps.len() as int, covered as int)
                &&& covered as int >= guaranteed_cover(count as int,
                    final(self).file_lines(fid).len() as int)
                &&& (final(self).leaf_count(steps.last()) >= count as int
                    || covered as int == final(self).file_lines(fid).len())
            }),
    {
        let ghost pre = *self;
        let ghost steps_g = plan.spec_steps();
        proof {
            assert(steps_g[0] is File);
        }
        let steps_len = plan.steps.len();
        let file_id = plan.file_id();
        let ghost fid = file_id.0 as int;
        proof {
            assert(steps_g[0] == Id::File(file_id));
            assert(steps_g[0].spec_num() == fid);
            assert(self.is_file_id(fid));
            assert(self.entry_wf(fid - 1));
        }
        let mut covered: usize = 0;
        let mut ri = ReadIntervals::new(count, MAX_BATCH_SIZE);
        loop
            invariant
                self.wf(),
                pre.wf(),
                Engine::extends(pre, *self),
                self.kinds@ == pre.kinds@,
                self.files@.len() == pre.files@.len(),
                self.tags@.len() == pre.tags@.len(),
                self.filters@.len() == pre.filters@.len(),
                self.distincts@.len() == pre.distincts@.len(),
                self.debug == pre.debug,
                forall|k: int| 0 <= k < pre.tags@.len()
                    ==> (#[trigger] self.tags@[k]).pattern == pre.tags@[k].pattern
                        && self.tags@[k].transform == pre.tags@[k].transform,
                self.plan_ok(steps_g),
                steps_g == plan.spec_steps(),
                steps_len == steps_g.len(),
                steps_g[0] == Id::File(file_id),
                fid == file_id.0 as int,
                self.is_file_id(fid),
                covered as int <= self.file_cached(fid),
                self.file_cached(fid) <= self.file_lines(fid).len(),
                self.file_lines(fid) == pre.file_lines(fid),
                covered as int <= ri.spec_index(),
                covered as int == if self.file_cached(fid) <= ri.spec_index() {
                    self.file_cached(fid)
                } else {
                    ri.spec_index()
                },
                ri.spec_next() <= ri.spec_max(),
                count > 0 ==> ri.spec_next() >= 1,
                ri.spec_next() >= if count as int <= MAX_BATCH_SIZE as int {
                    count as int
                } else {
                    MAX_BATCH_SIZE as int
                },
                self.file_cached(fid) >= if ri.spec_index() <= self.file_lines(fid).len() {
                    ri.spec_index()
                } else {
                    self.file_lines(fid).len() as int
                },
                self.plan_ensured_upto(steps_g, steps_len as int, covered as int),
            ensures
                self.wf(),
                Engine::extends(pre, *self),
                self.kinds@ == pre.kinds@,
                self.files@.len() == pre.files@.len(),
                self.tags@.len() == pre.tags@.len(),
                self.filters@.len() == pre.filters@.len(),
                self.distincts@.len() == pre.distincts@.len(),
                self.debug == pre.debug,
                forall|k: int| 0 <= k < pre.tags@.len()
                    ==> (#[trigger] self.tags@[k]).pattern == pre.tags@[k].pattern
                        && self.tags@[k].transform == pre.tags@[k].transform,
                self.plan_ok(steps_g),
                covered as int <= self.file_cached(fid),
                self.file_cached(fid) <= self.file_lines(fid).len(),
                self.file_lines(fid) == pre.file_lines(fid),
                self.plan_ensured_upto(steps_g, steps_len as int, covered as int),
                covered as int >= guaranteed_cover(count as int,
                    self.file_lines(fid).len() as int),
                self.leaf_count(steps_g.last()) >= count as int
                    || covered as int == self.file_lines(fid).len(),
            decreases self.file_lines(fid).len() - covered,
        {
            let ghost loop_pre = *self;
            let batch = ri.next();
            let ghost snap0 = *self;
            let rcount = match self.ensure_file(stats, file_id, batch) {
                Ok(c) => c,
                Err(_) => {
                    proof {
                        assert(false);
                    }
                    return 0;
                }
            };
            proof {
                lemma_extends_trans(pre, snap0, *self);
                lemma_counts_monotone(snap0, *self);
                lemma_plan_stable(loop_pre, *self, steps_g);
                assert(self.entry_wf(fid - 1));
                assert(self.file_cached(fid) <= self.file_lines(fid).len());
            }
            if rcount == 0 {
                proof {
                    let total = self.file_lines(fid).len() as int;
                    if count > 0 {
                        // a zero return with a live quota means end of file,
                        // and the covered prefix has already caught up with it
                        let end = self.file_cached(fid);
                        if batch.0 == batch.1 {
                            // an empty window only arises once the index has
                            // saturated, by which point the file is all read
                            assert(batch.1 == usize::MAX);
                            vstd::std_specs::vec::axiom_spec_len(
                                &loop_pre.files@[loop_pre.file_slot(fid)].lines);
                            assert(total <= usize::MAX as int);
                            assert(loop_pre.file_cached(fid)
                                >= if batch.0 as int <= total { batch.0 as int } else { total });
                            assert(loop_pre.file_cached(fid) >= total);
                            assert(*self == loop_pre);
                            assert(end == total);
                            assert(covered as int == total);
                        } else {
                            if end < total {
                                assert(end > batch.0 as int);
                                assert(false);
                            }
                            assert(end == total);
                            // an empty read means the window started at or
                            // past the cache's end
                            assert(end <= batch.0 as int);
                            assert(loop_pre.file_cached(fid)
                                >= if batch.0 as int <= total { batch.0 as int } else { total });
                            assert(loop_pre.file_cached(fid) == total);
                            assert(covered as int == total);
                        }
                        assert(self.file_cached(fid) == self.file_lines(fid).len());
                    } else {
                        assert(self.leaf_count(steps_g.last()) >= 0);
                    }
                    assert(covered as int >= guaranteed_cover(count as int, total));
                }
                break;
            }
            covered = covered + rcount;
            proof {
                let end = self.file_cached(fid);
                let total = self.file_lines(fid).len() as int;
                // the window never starts past the cache: a gap of unread
                // lines cannot arise under forward growth from index zero
                if loop_pre.file_cached(fid) < batch.0 as int {
                    assert(loop_pre.file_cached(fid)
                        >= if batch.0 as int <= total { batch.0 as int } else { total });
                    assert(loop_pre.file_cached(fid) == total);
                    assert(end == total);
                    assert(end > batch.0 as int);
                    assert(false);
                }
                assert((covered - rcount) as int == batch.0 as int);
                assert(end > batch.0 as int);
                assert(covered as int == if end <= ri.spec_index() {
                    end
                } else {
                    ri.spec_index()
                });
                assert(covered as int <= self.file_cached(fid));
                assert(covered as int <= ri.spec_index());
            }
            let ghost files_snap = self.files@;
            let ghost inner_pre = *self;
            let mut si: usize = 1;
            while si < steps_len
                invariant
                    self.wf(),
                    pre.wf(),
                    inner_pre.wf(),
                    Engine::extends(pre, *self),
                    Engine::extends(inner_pre, *self),
                    self.kinds@ == pre.kinds@,
                    self.files@ == files_snap,
                    files_snap == inner_pre.files@,
                    self.files@.len() == pre.files@.len(),
                    self.tags@.len() == pre.tags@.len(),
                    self.filters@.len() == pre.filters@.len(),
                    self.distincts@.len() == pre.distincts@.len(),
                    self.debug == pre.debug,
                    forall|k: int| 0 <= k < pre.tags@.len()
                        ==> (#[trigger] self.tags@[k]).pattern == pre.tags@[k].pattern
                            && self.tags@[k].transform == pre.tags@[k].transform,
                    self.plan_ok(steps_g),
                    steps_g == plan.spec_steps(),
                    steps_len == steps_g.len(),
                    steps_g[0] == Id::File(file_id),
                    fid == file_id.0 as int,
                    self.is_file_id(fid),
                    covered as int <= self.file_cached(fid),
                    self.file_cached(fid) == inner_pre.file_cached(fid),
                    self.file_cached(fid) <= self.file_lines(fid).len(),
                    self.file_lines(fid) == pre.file_lines(fid),
                    1 <= si <= steps_len,
                    self.plan_ensured_upto(steps_g, si as int, covered as int),
                decreases steps_len - si,
            {
                let ghost snap = *self;
                match plan.steps[si] {
                    Id::Tag(t) => {
                        proof {
                            assert(self.step_ok(steps_g[si as int], steps_g[si as int - 1]));
                            if si > 1 {
                                assert(!(steps_g[si as int] is Tag));
                                assert(false);
                            }
                            assert(steps_g[si as int - 1] == steps_g[0]);
                        }
                        match self.ensure_tag(stats, file_id, t, Interval(0, covered)) {
                            Ok(()) => (),
                            Err(_) => {
                                proof {
                                    assert(false);
                                }
                                return 0;
                            }
                        }
                    }
                    Id::Filter(f) => {
                        proof {
                            lemma_plan_shape(*self, steps_g, si as int);
                            assert(self.step_ok(steps_g[si as int], steps_g[si as int - 1]));
                            if si == 1 {
                                assert(steps_g[1] is Tag);
                                assert(false);
                            }
                        }
                        let t = match self.find_parent_tag(Id::Filter(f)) {
                            Some(t) => t,
                            None => {
                                proof {
                                    assert(false);
                                }
                                return 0;
                            }
                        };
                        proof {
                            assert(t.0 as int == steps_g[1].spec_num());
                            assert(steps_g[1] is Tag);
                            assert(self.plan_ensured_upto(steps_g, si as int, covered as int));
                            assert(match steps_g[1] {
                                Id::Tag(t1) => self.tag_cached(t1.0 as int) >= covered as int,
                                _ => true,
                            });
                            assert(self.tag_cached(t.0 as int) >= covered as int);
                            assert(self.entry_wf(f.0 as int - 1));
                            assert(self.gov_of(Id::Filter(f))
                                == self.gov_of(self.filters@[self.filter_slot(f.0 as int)].parent));
                        }
                        match self.ensure_filter(stats, t, f, Interval(0, covered)) {
                            Ok(()) => (),
                            Err(_) => {
                                proof {
                                    assert(false);
                                }
                                return 0;
                            }
                        }
                    }
                    Id::Distinct(d) => {
                        proof {
                            lemma_plan_shape(*self, steps_g, si as int);
                            assert(self.step_ok(steps_g[si as int], steps_g[si as int - 1]));
                            if si == 1 {
                                assert(steps_g[1] is Tag);
                                assert(false);
                            }
                        }
                        let t = match self.find_parent_tag(Id::Distinct(d)) {
                            Some(t) => t,
                            None => {
                                proof {
                                    assert(false);
                                }
                                return 0;
                            }
                        };
                        proof {
                            assert(t.0 as int == steps_g[1].spec_num());
                            assert(self.plan_ensured_upto(steps_g, si as int, covered as int));
                            assert(match steps_g[1] {
                                Id::Tag(t1) => self.tag_cached(t1.0 as int) >= covered as int,
                                _ => true,
                            });
                            assert(self.tag_cached(t.0 as int) >= covered as int);
                            assert(self.entry_wf(d.0 as int - 1));
                            assert(self.gov_of(Id::Distinct(d))
                                == self.gov_of(
                                    self.distincts@[self.distinct_slot(d.0 as int)].parent));
                        }
                        match self.ensure_distinct(stats, t, d, Interval(0, covered)) {
                            Ok(()) => (),
                            Err(_) => {
                                proof {
                                    assert(false);
                                }
                                return 0;
                            }
                        }
                    }
                    Id::File(_) => {
                        proof {
                            assert(self.step_ok(steps_g[si as int], steps_g[si as int - 1]));
                            assert(false);
                        }
                    }
                }
                proof {
                    lemma_extends_trans(pre, snap, *self);
                    lemma_extends_trans(inner_pre, snap, *self);
                    lemma_counts_monotone(snap, *self);
                    assert forall|k2: int| 0 <= k2 < snap.tags@.len()
                        implies (#[trigger] self.tags@[k2]).file == snap.tags@[k2].file by {}
                    assert forall|k2: int| 0 <= k2 < pre.tags@.len()
                        implies (#[trigger] self.tags@[k2]).pattern == pre.tags@[k2].pattern
                            && self.tags@[k2].transform == pre.tags@[k2].transform by {
                        assert(self.tags@[k2].pattern == snap.tags@[k2].pattern);
                        assert(self.tags@[k2].transform == snap.tags@[k2].transform);
                    }
                    lemma_plan_stable(snap, *self, steps_g);
                    assert forall|i2: int| 1 <= i2 < si as int + 1 && i2 < steps_g.len()
                        implies match #[trigger] steps_g[i2] {
                            Id::Tag(t2) => self.tag_cached(t2.0 as int) >= covered as int,
                            Id::Filter(f2) => self.filter_end(f2.0 as int) >= covered as int,
                            Id::Distinct(d2) => self.distinct_end(d2.0 as int) >= covered as int,
                            Id::File(_) => true,
                        } by {
                        if i2 < si as int {
                            assert(snap.step_ok(steps_g[i2], steps_g[i2 - 1]));
                        }
                    }
                }
                si = si + 1;
            }
            proof {
                let last = steps_g.last();
                if steps_len == 1 {
                    assert(last == steps_g[0]);
                    assert(self.is_registered(last));
                } else {
                    let l = steps_len as int - 1;
                    assert(self.step_ok(steps_g[l], steps_g[l - 1]));
                    assert(self.is_registered(last));
                }
            }
            let leaf = self.leaf_count_exec(plan.steps[steps_len - 1]);
            if leaf >= count {
                proof {
                    let total = self.file_lines(fid).len() as int;
                    // at least one full window was read this pass, so the
                    // covered prefix reaches the first window clipped to the
                    // file's length
                    assert(batch.1 as int >= if count as int <= MAX_BATCH_SIZE as int {
                        count as int
                    } else {
                        MAX_BATCH_SIZE as int
                    });
                    assert(covered as int >= guaranteed_cover(count as int, total));
                }
                break;
            }
        }
        covered
    }
}


impl Engine {
    /// Intersects every filter and distinct bitset on the plan and renders,
    /// in line order, the first `count` surviving lines of the covered
    /// prefix: each as its raw line, one annotation line per tag of the root
    /// file, and an empty separator line.
    fn render_results(&self, plan: &Plan, covered: usize, count: usize) -> (results: Vec<String>)
        requires
            self.wf(),
            self.plan_ok(plan.spec_steps()),
            covered as int <= self.file_cached(plan.spec_steps()[0].spec_num()),
            forall|t: int| #[trigger] self.is_tag_id(t)
                && self.tag_file(t) == plan.spec_steps()[0].spec_num()
                ==> self.tag_cached(t) >= covered as int,
        ensures
            str_views(results@) == self.render_from(plan.spec_steps(), covered as int, 0, 0,
                count as int),
    {
        let ghost steps_g = plan.spec_steps();
        let steps_len = plan.steps.len();
        let file_id = plan.file_id();
        let ghost fid = file_id.0 as int;
        proof {
            assert(steps_g[0] == Id::File(file_id));
        }
        let mut combined: Option<bit_set::BitSet> = None;
        let mut si: usize = 1;
        while si < steps_len
            invariant
                self.wf(),
                self.plan_ok(steps_g),
                steps_g == plan.spec_steps(),
                steps_len == steps_g.len(),
                1 <= si,
                si <= steps_len || si == 1,
                combined is None ==> forall|i: int| 1 <= i < si && i < steps_g.len()
                    ==> !((#[trigger] steps_g[i]) is Filter) && !(steps_g[i] is Distinct),
                combined matches Some(c) ==> bits_elems(c).finite()
                    && (forall|n: int| #[trigger] bits_elems(c).contains(n)
                        <==> self.mask_upto(steps_g, si as int, n)),
            decreases steps_len - si,
        {
            let ghost combined0 = combined;
            match plan.steps[si] {
                Id::Filter(f) => {
                    proof {
                        assert(self.step_ok(steps_g[si as int], steps_g[si as int - 1]));
                        assert(self.entry_wf(f.0 as int - 1));
                    }
                    let k = match self.kinds[f.0 - 1] {
                        Kind::Filter(k) => k,
                        _ => {
                            proof {
                                assert(false);
                            }
                            return Vec::new();
                        }
                    };
                    combined = Some(match combined {
                        Some(mut c) => {
                            bits_intersect(&mut c, &self.filters[k].bits);
                            c
                        }
                        None => bits_clone(&self.filters[k].bits),
                    });
                    proof {
                        assert(self.filter_data_wf(k as int));
                        let c = combined->Some_0;
                        assert forall|n: int| #[trigger] bits_elems(c).contains(n)
                            <==> self.mask_upto(steps_g, si as int + 1, n) by {
                            assert(self.filter_bits(f.0 as int)
                                == bits_elems(self.filters@[k as int].bits));
                            match combined0 {
                                Some(c0) => {
                                    assert(bits_elems(c).contains(n)
                                        <==> bits_elems(c0).contains(n)
                                            && self.filter_bits(f.0 as int).contains(n));
                                }
                                None => {
                                    assert(bits_elems(c).contains(n)
                                        <==> self.filter_bits(f.0 as int).contains(n));
                                }
                            }
                        }
                    }
                }
                Id::Distinct(d) => {
                    proof {
                        assert(self.step_ok(steps_g[si as int], steps_g[si as int - 1]));
                        assert(self.entry_wf(d.0 as int - 1));
                    }
                    let k = match self.kinds[d.0 - 1] {
                        Kind::Distinct(k) => k,
                        _ => {
                            proof {
                                assert(false);
                            }
                            return Vec::new();
                        }
                    };
                    combined = Some(match combined {
                        Some(mut c) => {
                            bits_intersect(&mut c, &self.distincts[k].bits);
                            c
                        }
                        None => bits_clone(&self.distincts[k].bits),
                    });
                    proof {
                        assert(self.distinct_data_wf(k as int));
                        let c = combined->Some_0;
                        assert forall|n: int| #[trigger] bits_elems(c).contains(n)
                            <==> self.mask_upto(steps_g, si as int + 1, n) by {
                            assert(self.distinct_bits(d.0 as int)
                                == bits_elems(self.distincts@[k as int].bits));
                            match combined0 {
                                Some(c0) => {
                                    assert(bits_elems(c).contains(n)
                                        <==> bits_elems(c0).contains(n)
                                            && self.distinct_bits(d.0 as int).contains(n));
                                }
                                None => {
                                    assert(bits_elems(c).contains(n)
                                        <==> self.distinct_bits(d.0 as int).contains(n));
                                }
                            }
                        }
                    }
                }
                _ => {
                    proof {
                        match combined0 {
                            Some(_) => {
                                assert forall|n: int|
                                    #[trigger] bits_elems(combined->Some_0).contains(n)
                                    <==> self.mask_upto(steps_g, si as int + 1, n) by {}
                            }
                            None => {}
                        }
                    }
                }
            }
            si = si + 1;
        }
        let mut results: Vec<String> = Vec::new();
        let mut emitted: usize = 0;
        let mut n: usize = 0;
        while n < covered
            invariant_except_break
                self.wf(),
                self.plan_ok(steps_g),
                steps_g == plan.spec_steps(),
                steps_len == steps_g.len(),
                steps_g[0] == Id::File(file_id),
                fid == file_id.0 as int,
                self.is_file_id(fid),
                covered as int <= self.file_cached(fid),
                forall|t: int| #[trigger] self.is_tag_id(t) && self.tag_file(t) == fid
                    ==> self.tag_cached(t) >= covered as int,
                n <= covered,
                emitted <= n,
                combined is None ==> forall|m: int| 0 <= m
                    ==> self.survives(steps_g, m),
                combined matches Some(c) ==> bits_elems(c).finite()
                    && (forall|m: int| #[trigger] bits_elems(c).contains(m)
                        <==> self.survives(steps_g, m)),
                str_views(results@) + self.render_from(steps_g, covered as int, n as int,
                    emitted as int, count as int)
                    == self.render_from(steps_g, covered as int, 0, 0, count as int),
            ensures
                str_views(results@) == self.render_from(steps_g, covered as int, 0, 0,
                    count as int),
            decreases covered - n,
        {
            let pass = match &combined {
                Some(c) => bits_contains(c, n),
                None => true,
            };
            proof {
                assert(pass == self.survives(steps_g, n as int));
            }
            let ghost before = str_views(results@);
            if pass {
                self.render_block_exec(&mut results, file_id, n);
                emitted = emitted + 1;
                proof {
                    assert(str_views(results@) =~= before
                        + self.render_block(fid, n as int));
                    assert(self.render_from(steps_g, covered as int, n as int,
                        emitted as int - 1, count as int)
                        == self.render_block(fid, n as int)
                            + if emitted as int >= count as int {
                            Seq::<Seq<char>>::empty()
                        } else {
                            self.render_from(steps_g, covered as int, n as int + 1,
                                emitted as int, count as int)
                        });
                }
                if emitted >= count {
                    proof {
                        assert(str_views(results@) =~= self.render_from(steps_g,
                            covered as int, 0, 0, count as int));
                    }
                    break;
                }
                proof {
                    assert(str_views(results@)
                        + self.render_from(steps_g, covered as int, n as int + 1,
                            emitted as int, count as int)
                        =~= self.render_from(steps_g, covered as int, 0, 0, count as int));
                }
            } else {
                proof {
                    assert(self.render_from(steps_g, covered as int, n as int,
                        emitted as int, count as int)
                        == self.render_from(steps_g, covered as int, n as int + 1,
                            emitted as int, count as int));
                }
            }
            n = n + 1;
        }
        results
    }
}


impl Engine {
    /// The plan of an identifier, root file first; rejected exactly when the
    /// identifier is unregistered.
    fn plan(&self, id: Id) -> (r: Result<Plan, Error>)
        requires
            self.wf(),
        ensures
            r is Ok <==> self.is_registered(id),
            !self.is_registered(id) ==> r == Err::<Plan, Error>(Error::MissingId(id)),
            r matches Ok(p) ==> self.plan_ok(p.spec_steps()) && p.spec_steps().last() == id,
    {
        match self.plan_steps(id) {
            Ok(steps) => Ok(Plan::new(steps)),
            Err(e) => Err(e),
        }
    }

    /// Drives the plan in expanding batches and renders the first `count`
    /// surviving lines of the covered prefix, each with every tag of the root
    /// file. Statistics are gathered when the engine is in debug mode.
    fn take(&mut self, plan: &Plan, count: usize) -> (r: Result<Output, Error>)
        requires
            old(self).wf(),
            old(self).plan_ok(plan.spec_steps()),
        ensures
            final(self).wf(),
            Engine::extends(*old(self), *final(self)),
            final(self).kinds@ == old(self).kinds@,
            final(self).id_count() == old(self).id_count(),
            final(self).spec_debug() == old(self).spec_debug(),
            r is Ok,
            r->Ok_0.id is None,
            final(self).plan_ok(plan.spec_steps()),
            forall|t: int| old(self).is_tag_id(t)
                ==> #[trigger] final(self).tag_pattern(t) == old(self).tag_pattern(t)
                    && final(self).tag_transform(t) == old(self).tag_transform(t),
            forall|p: Id| p.spec_num() <= old(self).id_count()
                ==> #[trigger] final(self).gov_of(p) == old(self).gov_of(p),
            ({
                let steps = plan.spec_steps();
                let fid = steps[0].spec_num();
                &&& (final(self).leaf_count(steps.last()) >= count as int
                    || final(self).file_cached(fid) == final(self).file_lines(fid).len())
                &&& exists|c: int| {
                    &&& 0 <= c <= final(self).file_cached(fid)
                    &&& final(self).plan_ensured_upto(steps, steps.len() as int, c)
                    &&& c >= guaranteed_cover(count as int,
                        final(self).file_lines(fid).len() as int)
                    &&& (final(self).leaf_count(steps.last()) >= count as int
                        || c == final(self).file_lines(fid).len())
                    &&& str_views(r->Ok_0.lines@)
                        == #[trigger] final(self).render_from(steps, c, 0, 0, count as int)
                }
            }),
    {
        let ghost pre = *self;
        let ghost steps_g = plan.spec_steps();
        let mut stats = if self.debug {
            Stats::enabled()
        } else {
            Stats::disabled()
        };
        let covered = self.drive(&mut stats, plan, count);
        let ghost mid = *self;
        let file_id = plan.file_id();
        proof {
            assert(steps_g[0] == Id::File(file_id));
        }
        match self.ensure_all_tags(&mut stats, file_id, Interval(0, covered)) {
            Ok(()) => (),
            Err(e) => {
                proof {
                    assert(false);
                }
                return Err(e);
            }
        }
        proof {
            lemma_extends_trans(pre, mid, *self);
            lemma_counts_monotone(mid, *self);
            lemma_plan_stable(mid, *self, steps_g);
            let fid = steps_g[0].spec_num();
            assert(self.file_cached(fid) == mid.file_cached(fid));
            assert(self.file_lines(fid) == mid.file_lines(fid));
            let last = steps_g.last();
            if mid.leaf_count(last) >= count as int {
                match last {
                    Id::File(_) => {}
                    Id::Tag(t) => {
                        assert(mid.is_tag_id(t.0 as int)) by {
                            if steps_g.len() == 1 {
                                assert(false);
                            } else {
                                let l = steps_g.len() as int - 1;
                                assert(mid.step_ok(steps_g[l], steps_g[l - 1]));
                            }
                        }
                        assert(self.tag_cached(t.0 as int) >= mid.tag_cached(t.0 as int));
                    }
                    Id::Filter(_) => {
                        assert(self.filters@ == mid.filters@);
                    }
                    Id::Distinct(_) => {
                        assert(self.distincts@ == mid.distincts@);
                    }
                }
                assert(self.leaf_count(last) >= count as int);
            }
        }
        proof {
            // the plan's caches stay extended to the covered prefix across
            // the final all-tags pass: tag caches only grow, and filter and
            // distinct caches are untouched by it
            assert forall|i2: int| 1 <= i2 < steps_g.len()
                implies match #[trigger] steps_g[i2] {
                    Id::Tag(t2) => self.tag_cached(t2.0 as int) >= covered as int,
                    Id::Filter(f2) => self.filter_end(f2.0 as int) >= covered as int,
                    Id::Distinct(d2) => self.distinct_end(d2.0 as int) >= covered as int,
                    Id::File(_) => true,
                } by {
                assert(mid.step_ok(steps_g[i2], steps_g[i2 - 1]));
                match steps_g[i2] {
                    Id::Tag(t2) => {
                        assert(self.is_tag_id(t2.0 as int));
                        assert(self.tag_cached(t2.0 as int) >= mid.tag_cached(t2.0 as int));
                    }
                    Id::Filter(f2) => {
                        assert(self.filters@ == mid.filters@);
                    }
                    Id::Distinct(d2) => {
                        assert(self.distincts@ == mid.distincts@);
                    }
                    Id::File(_) => {}
                }
            }
            assert(self.plan_ensured_upto(steps_g, steps_g.len() as int, covered as int));
        }
        proof {
            // a Take reconfigures nothing: patterns, transforms and parent
            // links are exactly as before, so governing tags are too
            assert forall|t: int| pre.is_tag_id(t)
                implies #[trigger] self.tag_pattern(t) == pre.tag_pattern(t)
                    && self.tag_transform(t) == pre.tag_transform(t) by {
                let k = pre.tag_slot(t);
                assert(self.tags@[k].pattern == mid.tags@[k].pattern);
                assert(mid.tags@[k].pattern == pre.tags@[k].pattern);
                assert(self.tags@[k].transform == mid.tags@[k].transform);
                assert(mid.tags@[k].transform == pre.tags@[k].transform);
            }
            assert forall|k: int| 0 <= k < pre.tags@.len()
                implies (#[trigger] self.tags@[k]).file == pre.tags@[k].file by {
                assert(pre.tags@[k].file == pre.tags@[k].file);
            }
            assert forall|k: int| 0 <= k < pre.filters@.len()
                implies (#[trigger] self.filters@[k]).parent == pre.filters@[k].parent by {
                assert(pre.filters@[k].parent == pre.filters@[k].parent);
            }
            assert forall|k: int| 0 <= k < pre.distincts@.len()
                implies (#[trigger] self.distincts@[k]).parent == pre.distincts@[k].parent by {
                assert(pre.distincts@[k].parent == pre.distincts@[k].parent);
            }
            lemma_gov_stable(pre, *self);
        }
        let results = self.render_results(plan, covered, count);
        let output = Output::with_results(results, stats);
        proof {
            let fid = steps_g[0].spec_num();
            assert(0 <= covered as int <= self.file_cached(fid));
            assert(self.file_lines(fid) == mid.file_lines(fid));
            assert(covered as int >= guaranteed_cover(count as int,
                self.file_lines(fid).len() as int));
            assert(str_views(output.lines@)
                == self.render_from(steps_g, covered as int, 0, 0, count as int));
        }
        Ok(output)
    }

    /// A message of the form `prefix` followed by a decimal number.
    fn msg_with_num(prefix: &str, n: usize) -> (r: String)
        ensures
            r@ == prefix@ + crate::text::spec_dec(n as nat),
    {
        let mut m = String::from_str(prefix);
        let d = crate::text::dec_string(n);
        m.append(d.as_str());
        m
    }

    /// Runs one command against the engine: registrations hand back the new
    /// identifier with a confirmation message, `Take` hands back the rendered
    /// results, and every error leaves already-cached data in place.
    pub fn run_command(&mut self, command: &Command) -> (r: Result<Output, Error>)
        requires
            old(self).wf(),
        ensures
            final(self).wf(),
            Engine::extends(*old(self), *final(self)),
            final(self).spec_debug() == old(self).spec_debug(),
            match *command {
                Command::Load(lines) => {
                    &&& r is Ok
                    &&& final(self).id_count() == old(self).id_count() + 1
                    &&& r->Ok_0.id == Some(Id::File(FileId((old(self).id_count() + 1) as usize)))
                    &&& final(self).is_file_id(old(self).id_count() + 1)
                    &&& final(self).file_lines(old(self).id_count() + 1) == str_views(lines@)
                    &&& final(self).file_cached(old(self).id_count() + 1) == 0
                    &&& r->Ok_0.lines@.len() == 1
                    &&& r->Ok_0.lines@[0]@ == "file loaded: "@
                        + spec_dec((old(self).id_count() + 1) as nat)
                },
                Command::Script(_) => *final(self) == *old(self)
                    && (r matches Err(e) ==> e is Script)
                    && (r matches Ok(out) ==> out.id is None && out.lines@.len() == 1
                        && out.lines@[0]@ == "script loaded"@),
                Command::Tag(fid2, name) => {
                    &&& !old(self).is_file_id(fid2.0 as int) ==> r == Err::<Output, Error>(
                        Error::MissingId(Id::File(fid2))) && *final(self) == *old(self)
                    &&& old(self).is_file_id(fid2.0 as int) ==> {
                        let t = old(self).id_count() + 1;
                        &&& r is Ok
                        &&& r->Ok_0.id == Some(Id::Tag(TagId(t as usize)))
                        &&& final(self).id_count() == t
                        &&& final(self).is_tag_id(t)
                        &&& final(self).tag_file(t) == fid2.0 as int
                        &&& final(self).tag_name(t) == name@
                        &&& final(self).tag_pattern(t) is None
                        &&& final(self).tag_transform(t) is None
                        &&& final(self).tag_cached(t) == 0
                        &&& r->Ok_0.lines@.len() == 1
                        &&& r->Ok_0.lines@[0]@ == "tag loaded: "@ + spec_dec(t as nat)
                            + " "@ + name@
                    }
                },
                Command::Regex(t, pat) => {
                    &&& !old(self).is_tag_id(t.0 as int) ==> r == Err::<Output, Error>(
                        Error::MissingId(Id::Tag(t))) && *final(self) == *old(self)
                    &&& old(self).is_tag_id(t.0 as int) && old(self).tag_cached(t.0 as int) > 0
                        ==> r == Err::<Output, Error>(Error::TagCached(Id::Tag(t)))
                            && *final(self) == *old(self)
                    &&& old(self).is_tag_id(t.0 as int) && old(self).tag_cached(t.0 as int) == 0
                        && !crate::pattern::regex_valid(pat@)
                        ==> (r matches Err(e) && e is Regex) && *final(self) == *old(self)
                    &&& old(self).is_tag_id(t.0 as int) && old(self).tag_cached(t.0 as int) == 0
                        && crate::pattern::regex_valid(pat@) ==> {
                        &&& r is Ok
                        &&& r->Ok_0.id == Some(Id::Tag(t))
                        &&& final(self).tag_pattern(t.0 as int) == Some(pat@)
                        &&& final(self).id_count() == old(self).id_count()
                        &&& r->Ok_0.lines@.len() == 1
                        &&& r->Ok_0.lines@[0]@ == "regex added to: "@ + spec_dec(t.0 as nat)
                    }
                },
                Command::Transform(t, src) => {
                    &&& !old(self).is_tag_id(t.0 as int) ==> r == Err::<Output, Error>(
                        Error::MissingId(Id::Tag(t))) && *final(self) == *old(self)
                    &&& old(self).is_tag_id(t.0 as int) && old(self).tag_cached(t.0 as int) > 0
                        ==> r == Err::<Output, Error>(Error::TagCached(Id::Tag(t)))
                            && *final(self) == *old(self)
                    &&& old(self).is_tag_id(t.0 as int) && old(self).tag_cached(t.0 as int) == 0
                        ==> {
                        &&& r is Ok
                        &&& r->Ok_0.id == Some(Id::Tag(t))
                        &&& final(self).tag_transform(t.0 as int) == Some(src@)
                        &&& final(self).id_count() == old(self).id_count()
                        &&& r->Ok_0.lines@.len() == 1
                        &&& r->Ok_0.lines@[0]@ == "transform added to: "@
                            + spec_dec(t.0 as nat)
                    }
                },
                Command::DirectFilter(parent, cmp, lit) => {
                    &&& !old(self).is_registered(parent) ==> r == Err::<Output, Error>(
                        Error::MissingId(parent)) && *final(self) == *old(self)
                    &&& old(self).is_registered(parent) && old(self).gov_of(parent) is None
                        ==> r == Err::<Output, Error>(Error::NoGoverningTag(parent))
                            && *final(self) == *old(self)
                    &&& old(self).gov_of(parent) is Some ==> {
                        let f = old(self).id_count() + 1;
                        &&& r is Ok
                        &&& r->Ok_0.id == Some(Id::Filter(FilterId(f as usize)))
                        &&& final(self).id_count() == f
                        &&& final(self).is_filter_id(f)
                        &&& final(self).filter_parent(f) == parent
                        &&& final(self).filter_test(f) == FilterSpec::Direct(cmp, lit@)
                        &&& final(self).filter_end(f) == 0
                        &&& final(self).filter_bits(f) == Set::<int>::empty()
                        &&& r->Ok_0.lines@.len() == 1
                        &&& r->Ok_0.lines@[0]@ == "filter loaded: "@ + spec_dec(f as nat)
                    }
                },
                Command::ScriptedFilter(parent, test) => {
                    &&& !old(self).is_registered(parent) ==> r == Err::<Output, Error>(
                        Error::MissingId(parent)) && *final(self) == *old(self)
                    &&& old(self).is_registered(parent) && old(self).gov_of(parent) is None
                        ==> r == Err::<Output, Error>(Error::NoGoverningTag(parent))
                            && *final(self) == *old(self)
                    &&& old(self).gov_of(parent) is Some ==> {
                        let f = old(self).id_count() + 1;
                        &&& r is Ok
                        &&& r->Ok_0.id == Some(Id::Filter(FilterId(f as usize)))
                        &&& final(self).id_count() == f
                        &&& final(self).is_filter_id(f)
                        &&& final(self).filter_parent(f) == parent
                        &&& final(self).filter_test(f) == FilterSpec::Scripted(test@)
                        &&& final(self).filter_end(f) == 0
                        &&& final(self).filter_bits(f) == Set::<int>::empty()
                        &&& r->Ok_0.lines@.len() == 1
                        &&& r->Ok_0.lines@[0]@ == "filter loaded: "@ + spec_dec(f as nat)
                    }
                },
                Command::Distinct(parent) => {
                    &&& !old(self).is_registered(parent) ==> r == Err::<Output, Error>(
                        Error::MissingId(parent)) && *final(self) == *old(self)
                    &&& old(self).is_registered(parent) && old(self).gov_of(parent) is None
                        ==> r == Err::<Output, Error>(Error::NoGoverningTag(parent))
                            && *final(self) == *old(self)
                    &&& old(self).gov_of(parent) is Some ==> {
                        let d = old(self).id_count() + 1;
                        &&& r is Ok
                        &&& r->Ok_0.id == Some(Id::Distinct(DistinctId(d as usize)))
                        &&& final(self).id_count() == d
                        &&& final(self).is_distinct_id(d)
                        &&& final(self).distinct_parent(d) == parent
                        &&& final(self).distinct_end(d) == 0
                        &&& final(self).distinct_bits(d) == Set::<int>::empty()
                        &&& r->Ok_0.lines@.len() == 1
                        &&& r->Ok_0.lines@[0]@ == "distinct loaded: "@ + spec_dec(d as nat)
                    }
                },
                Command::Group(_) => r == Err::<Output, Error>(Error::Unsupported)
                    && *final(self) == *old(self),
                Command::Take(id, count) => {
                    &&& !old(self).is_registered(id) ==> r == Err::<Output, Error>(
                        Error::MissingId(id)) && *final(self) == *old(self)
                    &&& old(self).is_registered(id) ==> {
                        &&& r is Ok
                        &&& r->Ok_0.id is None
                        &&& final(self).id_count() == old(self).id_count()
                        &&& forall|t: int| old(self).is_tag_id(t)
                            ==> #[trigger] final(self).tag_pattern(t)
                                    == old(self).tag_pattern(t)
                                && final(self).tag_transform(t)
                                    == old(self).tag_transform(t)
                        &&& forall|p: Id| p.spec_num() <= old(self).id_count()
                            ==> #[trigger] final(self).gov_of(p) == old(self).gov_of(p)
                        &&& exists|steps: Seq<Id>, c: int| {
                            &&& final(self).plan_ok(steps)
                            &&& steps.last() == id
                            &&& 0 <= c <= final(self).file_cached(steps[0].spec_num())
                            &&& final(self).plan_ensured_upto(steps, steps.len() as int, c)
                            &&& c >= guaranteed_cover(count as int,
                                final(self).file_lines(steps[0].spec_num()).len() as int)
                            &&& (final(self).leaf_count(id) >= count as int
                                || c == final(self).file_lines(steps[0].spec_num()).len())
                            &&& str_views(r->Ok_0.lines@)
                                == #[trigger] final(self).render_from(steps, c, 0, 0,
                                    count as int)
                        }
                    }
                },
            },
    {
        match command {
            Command::Load(lines) => {
                let owned = Engine::clone_lines(lines);
                let id = self.load(owned);
                let msg = Engine::msg_with_num("file loaded: ", id.0);
                Ok(Output::with_message(Some(Id::File(id)), msg))
            }
            Command::Script(script) => {
                match self.run_script(script.as_str()) {
                    Ok(()) => Ok(Output::with_message(None, String::from_str("script loaded"))),
                    Err(e) => Err(e),
                }
            }
            Command::Tag(fid2, name) => {
                let owned = name.clone();
                match self.add_tag(*fid2, owned) {
                    Ok(t) => {
                        let mut msg = Engine::msg_with_num("tag loaded: ", t.0);
                        msg.append(" ");
                        msg.append(name.as_str());
                        Ok(Output::with_message(Some(Id::Tag(t)), msg))
                    }
                    Err(e) => Err(e),
                }
            }
            Command::Regex(t, pat) => {
                let owned = pat.clone();
                match self.set_regex(*t, owned) {
                    Ok(()) => {
                        let msg = Engine::msg_with_num("regex added to: ", t.0);
                        Ok(Output::with_message(Some(Id::Tag(*t)), msg))
                    }
                    Err(e) => Err(e),
                }
            }
            Command::Transform(t, src) => {
                let owned = src.clone();
                match self.set_transform(*t, owned) {
                    Ok(()) => {
                        let msg = Engine::msg_with_num("transform added to: ", t.0);
                        Ok(Output::with_message(Some(Id::Tag(*t)), msg))
                    }
                    Err(e) => Err(e),
                }
            }
            Command::DirectFilter(parent, cmp, lit) => {
                let owned = lit.clone();
                match self.add_direct_filter(*parent, *cmp, owned) {
                    Ok(f) => {
                        let msg = Engine::msg_with_num("filter loaded: ", f.0);
                        Ok(Output::with_message(Some(Id::Filter(f)), msg))
                    }
                    Err(e) => Err(e),
                }
            }
            Command::ScriptedFilter(parent, test) => {
                let owned = test.clone();
                match self.add_scripted_filter(*parent, owned) {
                    Ok(f) => {
                        let msg = Engine::msg_with_num("filter loaded: ", f.0);
                        Ok(Output::with_message(Some(Id::Filter(f)), msg))
                    }
                    Err(e) => Err(e),
                }
            }
            Command::Distinct(parent) => {
                match self.add_distinct(*parent) {
                    Ok(d) => {
                        let msg = Engine::msg_with_num("distinct loaded: ", d.0);
                        Ok(Output::with_message(Some(Id::Distinct(d)), msg))
                    }
                    Err(e) => Err(e),
                }
            }
            Command::Group(_) => Err(Error::Unsupported),
            Command::Take(id, count) => {
                match self.plan(*id) {
                    Ok(plan) => {
                        let out = match self.take(&plan, *count) {
                            Ok(out) => out,
                            Err(e) => {
                                proof {
                                    assert(false);
                                }
                                return Err(e);
                            }
                        };
                        proof {
                            let steps = plan.spec_steps();
                            let c = choose|c: int| {
                                &&& 0 <= c <= self.file_cached(steps[0].spec_num())
                                &&& self.plan_ensured_upto(steps, steps.len() as int, c)
                                &&& c >= guaranteed_cover(*count as int,
                                    self.file_lines(steps[0].spec_num()).len() as int)
                                &&& (self.leaf_count(steps.last()) >= *count as int
                                    || c == self.file_lines(steps[0].spec_num()).len())
                                &&& str_views(out.lines@)
                                    == #[trigger] self.render_from(steps, c, 0, 0,
                                        *count as int)
                            };
                            assert({
                                &&& self.plan_ok(steps)
                                &&& steps.last() == *id
                                &&& 0 <= c <= self.file_cached(steps[0].spec_num())
                                &&& self.plan_ensured_upto(steps, steps.len() as int, c)
                                &&& c >= guaranteed_cover(*count as int,
                                    self.file_lines(steps[0].spec_num()).len() as int)
                                &&& (self.leaf_count(*id) >= *count as int
                                    || c == self.file_lines(steps[0].spec_num()).len())
                                &&& str_views(out.lines@)
                                    == self.render_from(steps, c, 0, 0, *count as int)
                            });
                        }
                        Ok(out)
                    }
                    Err(e) => Err(e),
                }
            }
        }
    }

    /// Copies the lines of a borrowed command payload.
    fn clone_lines(lines: &Vec<String>) -> (r: Vec<String>)
        ensures
            r@ == lines@,
    {
        let mut out: Vec<String> = Vec::new();
        let mut i: usize = 0;
        while i < lines.len()
            invariant
                i <= lines@.len(),
                out@ == lines@.take(i as int),
            decreases lines@.len() - i,
        {
            out.push(lines[i].clone());
            proof {
                assert(out@ =~= lines@.take(i + 1 as int));
            }
            i = i + 1;
        }
        proof {
            assert(lines@.take(lines@.len() as int) =~= lines@);
        }
        out
    }
}


/// Cache coverage monotonicity: across any growth step — and `run_command`
/// guarantees one for every command — each artifact keeps its identifier and
/// its cache bound never shrinks; bounds start at zero and only the upper end
/// moves. Bitset contents and the bloom's coverage, likewise, are only ever
/// added to, and entity links — a tag's file and name, a filter's parent and
/// test, a distinct node's parent — never change.
pub proof fn lemma_cache_monotonicity(pre: Engine, post: Engine, id: int)
    requires
        Engine::extends(pre, post),
    ensures
        pre.is_file_id(id) ==> post.is_file_id(id)
            && post.file_cached(id) >= pre.file_cached(id)
            && post.file_lines(id) == pre.file_lines(id),
        pre.is_tag_id(id) ==> post.is_tag_id(id) && post.tag_cached(id) >= pre.tag_cached(id)
            && post.tag_file(id) == pre.tag_file(id)
            && post.tag_name(id) == pre.tag_name(id),
        pre.is_filter_id(id) ==> post.is_filter_id(id)
            && post.filter_end(id) >= pre.filter_end(id)
            && pre.filter_bits(id).subset_of(post.filter_bits(id))
            && post.filter_parent(id) == pre.filter_parent(id)
            && post.filter_test(id) == pre.filter_test(id),
        pre.is_distinct_id(id) ==> post.is_distinct_id(id)
            && post.distinct_end(id) >= pre.distinct_end(id)
            && pre.distinct_bits(id).subset_of(post.distinct_bits(id))
            && post.distinct_parent(id) == pre.distinct_parent(id)
            && (forall|u: Seq<char>| bloom_covers(pre.distinct_bloom(id), u)
                ==> bloom_covers(post.distinct_bloom(id), u)),
{
    if pre.is_file_id(id) {
        assert(post.kinds@[id - 1] == pre.kinds@[id - 1]);
        assert(pre.files@[pre.file_slot(id)].cache@.len()
            <= post.files@[pre.file_slot(id)].cache@.len());
        assert(post.files@[pre.file_slot(id)].lines == pre.files@[pre.file_slot(id)].lines);
        assert(str_views(post.files@[pre.file_slot(id)].lines@)
            =~= str_views(pre.files@[pre.file_slot(id)].lines@));
    }
    if pre.is_tag_id(id) {
        assert(post.kinds@[id - 1] == pre.kinds@[id - 1]);
        assert(pre.tags@[pre.tag_slot(id)].cache@.len()
            <= post.tags@[pre.tag_slot(id)].cache@.len());
        assert(post.tags@[pre.tag_slot(id)].name == pre.tags@[pre.tag_slot(id)].name);
    }
    if pre.is_filter_id(id) {
        assert(post.kinds@[id - 1] == pre.kinds@[id - 1]);
        assert(pre.filters@[pre.filter_slot(id)].end <= post.filters@[pre.filter_slot(id)].end);
        assert(bits_elems(pre.filters@[pre.filter_slot(id)].bits).subset_of(
            bits_elems(post.filters@[pre.filter_slot(id)].bits)));
    }
    if pre.is_distinct_id(id) {
        assert(post.kinds@[id - 1] == pre.kinds@[id - 1]);
        assert(pre.distincts@[pre.distinct_slot(id)].end
            <= post.distincts@[pre.distinct_slot(id)].end);
        assert(bits_elems(pre.distincts@[pre.distinct_slot(id)].bits).subset_of(
            bits_elems(post.distincts@[pre.distinct_slot(id)].bits)));
        assert forall|u: Seq<char>| bloom_covers(pre.distinct_bloom(id), u)
            implies bloom_covers(post.distinct_bloom(id), u) by {
            assert(bloom_covers(pre.distincts@[pre.distinct_slot(id)].bloom, u));
        }
    }
}

/// Alignment: a tag's cache bound lies within its file's line cache bound.
pub proof fn lemma_tag_alignment(e: Engine, t: int)
    requires
        e.wf(),
        e.is_tag_id(t),
    ensures
        e.is_file_id(e.tag_file(t)),
        e.tag_cached(t) <= e.file_cached(e.tag_file(t)),
        e.file_cached(e.tag_file(t)) <= e.file_lines(e.tag_file(t)).len(),
{
    assert(e.entry_wf(t - 1));
    let f = e.tag_file(t);
    assert(e.entry_wf(f - 1));
}

/// Alignment: a filter's cache bound lies within its governing tag's cache
/// bound, and so within the root file's line cache bound.
pub proof fn lemma_filter_alignment(e: Engine, f: int)
    requires
        e.wf(),
        e.is_filter_id(f),
    ensures
        e.gov_of(e.filter_parent(f)) is Some,
        ({
            let g = e.gov_of(e.filter_parent(f))->Some_0;
            &&& e.is_tag_id(g)
            &&& e.filter_end(f) <= e.tag_cached(g)
            &&& e.tag_cached(g) <= e.file_cached(e.tag_file(g))
        }),
{
    assert(e.entry_wf(f - 1));
    lemma_gov_valid(e, e.filter_parent(f));
    let g = e.gov_of(e.filter_parent(f))->Some_0;
    lemma_tag_alignment(e, g);
}

/// Alignment: a distinct node's cache bound lies within its governing tag's
/// cache bound, and so within the root file's line cache bound.
pub proof fn lemma_distinct_alignment(e: Engine, d: int)
    requires
        e.wf(),
        e.is_distinct_id(d),
    ensures
        e.gov_of(e.distinct_parent(d)) is Some,
        ({
            let g = e.gov_of(e.distinct_parent(d))->Some_0;
            &&& e.is_tag_id(g)
            &&& e.distinct_end(d) <= e.tag_cached(g)
            &&& e.tag_cached(g) <= e.file_cached(e.tag_file(g))
        }),
{
    assert(e.entry_wf(d - 1));
    lemma_gov_valid(e, e.distinct_parent(d));
    let g = e.gov_of(e.distinct_parent(d))->Some_0;
    lemma_tag_alignment(e, g);
}

/// Filter semantics: within a direct filter's bound, a line index is in the
/// bitset exactly when the governing tag's value there is present and
/// compares as the filter asks against the literal, under string ordering.
pub proof fn lemma_direct_filter_semantics(e: Engine, f: int, n: int)
    requires
        e.wf(),
        e.is_filter_id(f),
        e.filter_test(f) is Direct,
        0 <= n < e.filter_end(f),
    ensures
        ({
            let g = e.gov_of(e.filter_parent(f))->Some_0;
            e.filter_bits(f).contains(n) <==> direct_sat(e.filter_test(f)->Direct_0,
                e.filter_test(f)->Direct_1, e.tag_vals(g)[n])
        }),
{
    assert(e.entry_wf(f - 1));
}

/// Distinct first occurrence, forward only: every marked index holds a
/// present tag value that no earlier index repeats. The bloom filter's
/// spurious answers can only drop a true first occurrence, never mark a
/// duplicate, so this direction holds unconditionally.
pub proof fn lemma_distinct_first_occurrence(e: Engine, d: int, n: int)
    requires
        e.wf(),
        e.is_distinct_id(d),
        e.distinct_bits(d).contains(n),
    ensures
        0 <= n < e.distinct_end(d),
        ({
            let g = e.gov_of(e.distinct_parent(d))->Some_0;
            &&& e.tag_vals(g)[n] is Some
            &&& forall|m: int| 0 <= m < n ==> e.tag_vals(g)[m] != e.tag_vals(g)[n]
        }),
{
    assert(e.entry_wf(d - 1));
}

/// A tag without a transform caches exactly what its pattern extracts: the
/// captured group for a matching pattern, the whole line without one, and a
/// missing value where the pattern does not apply.
pub proof fn lemma_tag_value_faithful(e: Engine, t: int, i: int)
    requires
        e.wf(),
        e.is_tag_id(t),
        e.tag_transform(t) is None,
        0 <= i < e.tag_cached(t),
    ensures
        e.tag_vals(t)[i] == tag_extract(e.tag_pattern(t), e.file_lines(e.tag_file(t))[i]),
{
    assert(e.entry_wf(t - 1));
    let k = e.tag_slot(t);
    let f = e.tag_file(t);
    assert(e.entry_wf(f - 1));
    let fsl = e.file_slot(f);
    assert(i < e.files@[fsl].cache@.len());
    assert(i < e.files@[fsl].lines@.len());
    assert(e.tags@[k].transform is None);
    assert(opt_view(e.tags@[k].cache@[i])
        == tag_extract(opt_view(e.tags@[k].pattern), e.files@[fsl].lines@[i]@));
    assert(e.tag_vals(t)[i] == opt_view(e.tags@[k].cache@[i]));
    assert(e.file_lines(f)[i] == e.files@[fsl].lines@[i]@);
    assert(e.tag_pattern(t) == opt_view(e.tags@[k].pattern));
}

/// With a transform set, a line whose extraction fails still caches a
/// missing value: the transform never runs on a failed match.
pub proof fn lemma_tag_missing_on_failed_extraction(e: Engine, t: int, i: int)
    requires
        e.wf(),
        e.is_tag_id(t),
        e.tag_pattern(t) is Some,
        0 <= i < e.tag_cached(t),
        tag_extract(e.tag_pattern(t), e.file_lines(e.tag_file(t))[i]) is None,
    ensures
        e.tag_vals(t)[i] is None,
{
    assert(e.entry_wf(t - 1));
    let k = e.tag_slot(t);
    let f = e.tag_file(t);
    assert(e.entry_wf(f - 1));
    let fsl = e.file_slot(f);
    assert(i < e.files@[fsl].cache@.len());
    assert(i < e.files@[fsl].lines@.len());
    assert(e.file_lines(f)[i] == e.files@[fsl].lines@[i]@);
    assert(e.tag_pattern(t) == opt_view(e.tags@[k].pattern));
    assert(tag_extract(opt_view(e.tags@[k].pattern), e.files@[fsl].lines@[i]@) is None);
    if e.tags@[k].transform is None {
        assert(opt_view(e.tags@[k].cache@[i])
            == tag_extract(opt_view(e.tags@[k].pattern), e.files@[fsl].lines@[i]@));
    } else {
        assert(e.tags@[k].cache@[i] is None);
    }
    assert(e.tag_vals(t)[i] == opt_view(e.tags@[k].cache@[i]));
}

/// At most one index is marked per distinct value: two marked indices never
/// hold the same tag value.
pub proof fn lemma_distinct_unique(e: Engine, d: int, n: int, m: int)
    requires
        e.wf(),
        e.is_distinct_id(d),
        e.distinct_bits(d).contains(n),
        e.distinct_bits(d).contains(m),
        n != m,
    ensures
        ({
            let g = e.gov_of(e.distinct_parent(d))->Some_0;
            e.tag_vals(g)[n] != e.tag_vals(g)[m]
        }),
{
    lemma_distinct_first_occurrence(e, d, n);
    lemma_distinct_first_occurrence(e, d, m);
}

} // verus!
