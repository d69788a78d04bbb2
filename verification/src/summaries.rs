//! The summaries of one package, parsed as late as possible.

use crate::cache::{parse_ranges, CacheError, SummariesCache};
use crate::package::IndexSummary;
use crate::split::split;
use crate::text::same_bytes;
use crate::version::{Version, VersionReq, VersionView};
use vstd::prelude::*;

verus! {

/// What ends a line of an index file.
pub const NEWLINE: u8 = 10;

/// A lazily parsed `IndexSummary`.
pub enum MaybeIndexSummary {
    /// A summary which has not been parsed. The `start` and `end` are places in
    /// the raw data of the [`Summaries`] that this is an entry of.
    Unparsed { start: usize, end: usize },
    /// An actually parsed summary.
    Parsed(IndexSummary),
}

/// Whether `parse` may have said `r` of a line.
pub open spec fn decodes<E, F: Fn(&[u8]) -> Result<IndexSummary, E>>(
    parse: F,
    line: Seq<u8>,
    r: Result<IndexSummary, E>,
) -> bool {
    exists|bytes: &[u8]| bytes@ == line && #[trigger] call_ensures(parse, (bytes,), r)
}

impl MaybeIndexSummary {
    /// Whether an unparsed summary stands within `len` bytes of raw data.
    pub open spec fn is_within(self, len: nat) -> bool {
        self matches MaybeIndexSummary::Unparsed { start, end } ==> start <= end <= len
    }

    /// Parses this "maybe a summary" into a `Parsed` for sure variant.
    ///
    /// Does nothing if this is already `Parsed`, and otherwise the `raw_data`
    /// passed in is sliced with the bounds in `Unparsed` and then actually
    /// parsed.
    pub fn parse<E, F: Fn(&[u8]) -> Result<IndexSummary, E>>(
        &mut self,
        raw_data: &[u8],
        parse: &F,
    ) -> (r: Result<&IndexSummary, E>)
        requires
            old(self).is_within(raw_data@.len()),
            *old(self) is Unparsed ==> forall|line: &[u8]| call_requires(*parse, (line,)),
        ensures
            match *old(self) {
                MaybeIndexSummary::Parsed(s) => {
                    &&& r matches Ok(summary) && *summary == s
                    &&& *final(self) == *old(self)
                },
                MaybeIndexSummary::Unparsed { start, end } => match r {
                    Ok(summary) => {
                        &&& decodes(
                            *parse,
                            raw_data@.subrange(start as int, end as int),
                            Ok::<IndexSummary, E>(*summary),
                        )
                        &&& *final(self) == MaybeIndexSummary::Parsed(*summary)
                    },
                    Err(e) => {
                        &&& decodes(
                            *parse,
                            raw_data@.subrange(start as int, end as int),
                            Err::<IndexSummary, E>(e),
                        )
                        &&& *final(self) == *old(self)
                    },
                },
            },
    {
        if let MaybeIndexSummary::Unparsed { start, end } = self {
            let line = vstd::slice::slice_subrange(raw_data, *start, *end);
            match parse(line) {
                Ok(summary) => {
                    *self = MaybeIndexSummary::Parsed(summary);
                },
                Err(e) => {
                    return Err(e);
                },
            }
        }
        match self {
            MaybeIndexSummary::Parsed(summary) => Ok(summary),
            MaybeIndexSummary::Unparsed { .. } => vstd::pervasive::unreached(),
        }
    }
}

impl vstd::std_specs::convert::FromSpecImpl<IndexSummary> for MaybeIndexSummary {
    open spec fn obeys_from_spec() -> bool {
        true
    }

    open spec fn from_spec(summary: IndexSummary) -> MaybeIndexSummary {
        MaybeIndexSummary::Parsed(summary)
    }
}

impl From<IndexSummary> for MaybeIndexSummary {
    fn from(summary: IndexSummary) -> (r: MaybeIndexSummary) {
        MaybeIndexSummary::Parsed(summary)
    }
}

/// A version and what is known of it.
struct VersionEntry {
    version: Version,
    summary: MaybeIndexSummary,
}

/// The value of a version with what is known of it.
pub struct Slot {
    pub version: VersionView,
    pub summary: MaybeIndexSummary,
}

/// The summaries of a package, by version.
///
/// They come from one of two places: from the registry's own file, of which
/// every line is parsed, or from a cache file, of which only the versions are
/// read. The JSON blobs of a cache file are parsed one by one, when they are
/// asked for.
pub struct Summaries {
    /// The bytes that unparsed summaries stand in. There are none if the
    /// summaries come from the registry's own file, since nothing is unparsed.
    raw_data: Vec<u8>,
    /// All known versions of the package, no two of them the same.
    versions: Vec<VersionEntry>,
}

/// Whether the version at place `i` has the key of another.
pub open spec fn is_at(slots: Seq<Slot>, version: VersionView, i: int) -> bool {
    0 <= i < slots.len() && slots[i].version.key() == version.key()
}

/// Whether no two versions are the same.
pub open spec fn are_distinct(slots: Seq<Slot>) -> bool {
    forall|i: int, j: int|
        0 <= i < j < slots.len() ==> (#[trigger] slots[i]).version.key() != (
        #[trigger] slots[j]).version.key()
}

/// Whether every summary is parsed.
pub open spec fn are_parsed(slots: Seq<Slot>) -> bool {
    forall|i: int| 0 <= i < slots.len() ==> (#[trigger] slots[i]).summary is Parsed
}

/// Whether the unparsed summaries stand within `len` bytes of raw data.
pub open spec fn are_within(slots: Seq<Slot>, len: nat) -> bool {
    forall|i: int| 0 <= i < slots.len() ==> (#[trigger] slots[i]).summary.is_within(len)
}

/// The versions after one of them was put in: it replaces what was known of
/// the same version, whose spelling stays, or it comes last.
pub open spec fn insert_slot(slots: Seq<Slot>, new: Slot) -> Seq<Slot> {
    if exists|i: int| is_at(slots, new.version, i) {
        let i = choose|i: int| is_at(slots, new.version, i);
        slots.update(i, Slot { version: slots[i].version, summary: new.summary })
    } else {
        slots.push(new)
    }
}

/// The versions after several were put in, one after the other.
pub open spec fn insert_all(slots: Seq<Slot>, list: Seq<Slot>) -> Seq<Slot>
    decreases list.len(),
{
    if list.len() == 0 {
        slots
    } else {
        insert_slot(insert_all(slots, list.drop_last()), list.last())
    }
}

/// The versions of a cache file, none of them parsed.
pub open spec fn unparsed_slots(places: Seq<crate::cache::RangeView>) -> Seq<Slot> {
    Seq::new(
        places.len(),
        |i: int|
            Slot {
                version: places[i].version,
                summary: MaybeIndexSummary::Unparsed {
                    start: places[i].start as usize,
                    end: places[i].end as usize,
                },
            },
    )
}

/// The lines that gave a summary.
pub open spec fn kept<E>(decoded: Seq<Result<IndexSummary, E>>) -> Seq<int>
    decreases decoded.len(),
{
    if decoded.len() == 0 {
        Seq::empty()
    } else if decoded.last() is Ok {
        kept(decoded.drop_last()).push(decoded.len() - 1)
    } else {
        kept(decoded.drop_last())
    }
}

/// The version that a line is about.
pub open spec fn version_of<E>(decoded: Result<IndexSummary, E>) -> VersionView {
    decoded->Ok_0.summary.package_id.version@
}

/// Whether the versions of the lines that gave a summary can be read back.
pub open spec fn are_readable<E>(decoded: Seq<Result<IndexSummary, E>>) -> bool {
    forall|i: int|
        0 <= i < decoded.len() && (#[trigger] decoded[i]) is Ok ==> version_of(
            decoded[i],
        ).is_readable()
}

/// Whether the lines that gave a summary hold no NUL byte.
pub open spec fn have_no_nul<E>(
    lines: Seq<Seq<u8>>,
    decoded: Seq<Result<IndexSummary, E>>,
) -> bool {
    forall|i: int|
        0 <= i < lines.len() && (#[trigger] decoded[i]) is Ok ==> crate::cache::no_nul(lines[i])
}

/// The versions that the lines of an index file give.
pub open spec fn parsed_slots<E>(decoded: Seq<Result<IndexSummary, E>>) -> Seq<Slot> {
    kept(decoded).map_values(
        |i: int|
            Slot {
                version: version_of(decoded[i]),
                summary: MaybeIndexSummary::Parsed(decoded[i]->Ok_0),
            },
    )
}

/// The versions that the lines of an index file give, each with its line.
pub open spec fn cacheable<E>(
    lines: Seq<Seq<u8>>,
    decoded: Seq<Result<IndexSummary, E>>,
) -> Seq<(VersionView, Seq<u8>)> {
    kept(decoded).map_values(|i: int| (version_of(decoded[i]), lines[i]))
}

/// Whether `parse` may have turned the lines into `decoded`.
pub open spec fn all_decode<E, F: Fn(&[u8]) -> Result<IndexSummary, E>>(
    parse: F,
    lines: Seq<Seq<u8>>,
    decoded: Seq<Result<IndexSummary, E>>,
) -> bool {
    &&& decoded.len() == lines.len()
    &&& forall|i: int| 0 <= i < lines.len() ==> decodes(parse, lines[i], #[trigger] decoded[i])
}

/// Putting a version in keeps the versions distinct.
proof fn lemma_insert_distinct(slots: Seq<Slot>, new: Slot)
    requires
        are_distinct(slots),
    ensures
        are_distinct(insert_slot(slots, new)),
{
    if !exists|i: int| is_at(slots, new.version, i) {
        assert forall|i: int| 0 <= i < slots.len() implies (#[trigger] slots[i]).version.key()
            != new.version.key() by {
            assert(!is_at(slots, new.version, i));
        }
    }
}

impl Summaries {
    /// The bytes that unparsed summaries stand in.
    pub closed spec fn raw_data(&self) -> Seq<u8> {
        self.raw_data@
    }

    /// The versions and what is known of them.
    pub closed spec fn slots(&self) -> Seq<Slot> {
        Seq::new(
            self.versions@.len(),
            |i: int|
                Slot { version: self.versions@[i].version@, summary: self.versions@[i].summary },
        )
    }

    /// What holds of all summaries.
    pub open spec fn wf(&self) -> bool {
        &&& are_distinct(self.slots())
        &&& are_within(self.slots(), self.raw_data().len())
    }

    /// No summaries at all.
    pub fn new() -> (r: Summaries)
        ensures
            r.wf(),
            r.raw_data() == Seq::<u8>::empty(),
            r.slots() == Seq::<Slot>::empty(),
    {
        Summaries { raw_data: Vec::new(), versions: Vec::new() }
    }

    /// Puts a version in.
    fn insert(&mut self, version: Version, summary: MaybeIndexSummary)
        requires
            are_distinct(old(self).slots()),
        ensures
            final(self).raw_data() == old(self).raw_data(),
            final(self).slots() == insert_slot(
                old(self).slots(),
                Slot { version: version@, summary },
            ),
    {
        let ghost before = self.slots();
        let ghost new = Slot { version: version@, summary };
        let mut i: usize = 0;
        while i < self.versions.len()
            invariant
                i <= self.versions@.len(),
                self.slots() == before,
                self.raw_data() == old(self).raw_data(),
                before == old(self).slots(),
                new == (Slot { version: version@, summary }),
                are_distinct(before),
                forall|j: int| 0 <= j < i ==> !#[trigger] is_at(before, new.version, j),
            decreases self.versions@.len() - i,
        {
            if self.versions[i].version.same(&version) {
                proof {
                    assert(is_at(before, new.version, i as int));
                }
                self.versions[i].summary = summary;
                return;
            }
            i += 1;
        }
        self.versions.push(VersionEntry { version, summary });
    }

    /// Reads a cache file, of which no summary is parsed yet.
    pub fn parse_cache(contents: Vec<u8>, last_index_update: &str) -> (r: Result<
        Summaries,
        CacheError,
    >)
        ensures
            match r {
                Ok(s) => {
                    &&& crate::cache::cache_ranges(contents@, last_index_update@) matches Ok(places)
                        && s.slots() == insert_all(Seq::empty(), unparsed_slots(places))
                    &&& s.raw_data() == contents@
                    &&& s.wf()
                },
                Err(e) => crate::cache::cache_ranges(contents@, last_index_update@) == Err::<
                    Seq<crate::cache::RangeView>,
                    crate::cache::CacheErrorView,
                >(e@),
            },
    {
        let list = match parse_ranges(contents.as_slice(), last_index_update) {
            Ok(list) => list,
            Err(e) => {
                return Err(e);
            },
        };
        let ghost places = crate::cache::ranges(list@);
        let ghost slots = unparsed_slots(places);
        let mut ret = Summaries::new();
        let mut i: usize = 0;
        while i < list.len()
            invariant
                i <= list@.len(),
                places == crate::cache::ranges(list@),
                slots == unparsed_slots(places),
                forall|j: int|
                    0 <= j < list@.len() ==> (#[trigger] list@[j]).start <= list@[j].end
                        <= contents@.len(),
                ret.slots() == insert_all(Seq::empty(), slots.take(i as int)),
                are_distinct(ret.slots()),
                are_within(ret.slots(), contents@.len()),
            decreases list@.len() - i,
        {
            proof {
                assert(slots.take(i + 1).drop_last() =~= slots.take(i as int));
                lemma_insert_distinct(ret.slots(), slots[i as int]);
            }
            ret.insert(
                list[i].version.clone(),
                MaybeIndexSummary::Unparsed { start: list[i].start, end: list[i].end },
            );
            i += 1;
        }
        assert(slots.take(i as int) =~= slots);
        ret.raw_data = contents;
        Ok(ret)
    }
}

/// The value of an optional byte string.
pub open spec fn bytes_of(bytes: Option<Vec<u8>>) -> Option<Seq<u8>> {
    match bytes {
        Some(b) => Some(b@),
        None => None,
    }
}

/// Whether a cache file is there and holds what belongs to the current state of
/// the index.
pub open spec fn is_fresh(index_version: Option<Seq<char>>, cache_file: Option<Seq<u8>>) -> bool {
    &&& index_version is Some
    &&& cache_file is Some
    &&& crate::cache::cache_ranges(cache_file->0, index_version->0) is Ok
}

/// What to do once the cache file was read.
pub enum ParseStep {
    /// The cache file has all that is needed.
    Ready(Summaries),
    /// The file of the registry has to be loaded.
    Load(IndexLoad),
}

/// Summaries that are being made from a file of the registry.
pub struct IndexLoad {
    index_version: Option<String>,
    cache_contents: Option<Vec<u8>>,
    ret: Summaries,
    hit_closure: bool,
    cache_bytes: Option<Vec<u8>>,
}

/// What came of loading a file of the registry.
pub enum LoadOutcome {
    /// There is no such file.
    Missing {
        /// Whether a fresh cache file says otherwise.
        has_fresh_cache: bool,
    },
    /// The summaries of the package.
    Found {
        summaries: Summaries,
        /// What to write into the cache file.
        cache_bytes: Option<Vec<u8>>,
        /// Whether a cache file that passed for fresh holds something else.
        is_cache_wrong: bool,
    },
}

impl Summaries {
    /// Decides where the summaries of a package come from.
    ///
    /// This will attempt to prefer a previous cache file. If that is not there
    /// or of no use, then the file of the registry has to be loaded.
    ///
    /// * `index_version` - a version string to describe the current state of
    ///   the index which for remote registries is the current git sha and
    ///   for local registries is not available. Without it there is no cache
    ///   file.
    /// * `cache_file` - what the cache file holds, if it could be read.
    /// * `check_cache` - whether the file of the registry is loaded all the
    ///   same, to hold a fresh cache file against it.
    pub fn parse(
        index_version: Option<&str>,
        cache_file: Option<Vec<u8>>,
        check_cache: bool,
    ) -> (r: ParseStep)
        ensures
            match r {
                ParseStep::Ready(s) => {
                    &&& is_fresh(crate::version::text_of(index_version), bytes_of(cache_file))
                    &&& !check_cache
                    &&& s.wf()
                    &&& s.raw_data() == cache_file->0@
                    &&& s.slots() == insert_all(
                        Seq::empty(),
                        unparsed_slots(
                            crate::cache::cache_ranges(cache_file->0@, index_version->0@)->Ok_0,
                        ),
                    )
                },
                ParseStep::Load(job) => {
                    let fresh = is_fresh(
                        crate::version::text_of(index_version),
                        bytes_of(cache_file),
                    );
                    &&& !fresh || check_cache
                    &&& job.wf()
                    &&& job.index_version() == crate::version::text_of(index_version)
                    &&& job.cache_contents() == if fresh {
                        bytes_of(cache_file)
                    } else {
                        None
                    }
                    &&& !job.is_hit()
                    &&& job.slots() == Seq::<Slot>::empty()
                    &&& job.cache_bytes() is None
                },
            },
    {
        let mut cache_contents: Option<Vec<u8>> = None;
        if let Some(index_version) = index_version {
            if let Some(contents) = cache_file {
                match Summaries::parse_cache(contents, index_version) {
                    Ok(s) => {
                        if !check_cache {
                            return ParseStep::Ready(s);
                        }
                        cache_contents = Some(s.raw_data);
                    },
                    Err(_) => {},
                }
            }
        }
        let index_version = match index_version {
            Some(v) => Some(v.to_owned()),
            None => None,
        };
        ParseStep::Load(
            IndexLoad {
                index_version,
                cache_contents,
                ret: Summaries::new(),
                hit_closure: false,
                cache_bytes: None,
            },
        )
    }
}

impl IndexLoad {
    /// The state of the index.
    pub closed spec fn index_version(&self) -> Option<Seq<char>> {
        match self.index_version {
            Some(v) => Some(v@),
            None => None,
        }
    }

    /// What a fresh cache file holds, if it is to be checked.
    pub closed spec fn cache_contents(&self) -> Option<Seq<u8>> {
        bytes_of(self.cache_contents)
    }

    /// The versions so far.
    pub closed spec fn slots(&self) -> Seq<Slot> {
        self.ret.slots()
    }

    /// Whether a file was read.
    pub closed spec fn is_hit(&self) -> bool {
        self.hit_closure
    }

    /// What belongs into the cache file.
    pub closed spec fn cache_bytes(&self) -> Option<Seq<u8>> {
        bytes_of(self.cache_bytes)
    }

    /// What holds while summaries are made: the versions are distinct and all
    /// of them parsed, so that no raw data is needed.
    pub closed spec fn wf(&self) -> bool {
        &&& are_distinct(self.slots())
        &&& are_parsed(self.slots())
        &&& self.ret.raw_data() == Seq::<u8>::empty()
    }

    /// Takes in a file of the registry, which holds one version per line.
    ///
    /// Attempts forwards-compatibility on the index by ignoring every line that
    /// `parse` does not understand.
    pub fn read<E, F: Fn(&[u8]) -> Result<IndexSummary, E>>(&mut self, contents: &[u8], parse: &F)
        requires
            old(self).wf(),
            forall|line: &[u8]| call_requires(*parse, (line,)),
        ensures
            final(self).wf(),
            final(self).is_hit(),
            final(self).index_version() == old(self).index_version(),
            final(self).cache_contents() == old(self).cache_contents(),
            exists|decoded: Seq<Result<IndexSummary, E>>|
                {
                    &&& #[trigger] all_decode(
                        *parse,
                        crate::split::pieces(contents@, NEWLINE),
                        decoded,
                    )
                    &&& are_readable(decoded)
                    &&& final(self).slots() == insert_all(old(self).slots(), parsed_slots(decoded))
                    &&& final(self).cache_bytes() == match old(self).index_version() {
                        Some(v) => Some(
                            crate::cache::cache_bytes(
                                cacheable(crate::split::pieces(contents@, NEWLINE), decoded),
                                v,
                            ),
                        ),
                        None => old(self).cache_bytes(),
                    }
                },
    {
        let ghost lines = crate::split::pieces(contents@, NEWLINE);
        let ghost mut decoded: Seq<Result<IndexSummary, E>> = Seq::empty();
        let ghost before = self.slots();
        let mut cache = SummariesCache { versions: Vec::new() };
        self.hit_closure = true;
        let mut iter = split(contents, NEWLINE);
        loop
            invariant_except_break
                iter.needle() == NEWLINE,
                decoded.len() <= lines.len(),
                crate::split::pieces(iter.rest(), NEWLINE) == lines.skip(decoded.len() as int),
                forall|i: int|
                    0 <= i < decoded.len() ==> decodes(*parse, lines[i], #[trigger] decoded[i]),
            invariant
                forall|line: &[u8]| call_requires(*parse, (line,)),
                self.hit_closure,
                self.index_version == old(self).index_version,
                self.cache_contents == old(self).cache_contents,
                self.cache_bytes == old(self).cache_bytes,
                self.wf(),
                are_readable(decoded),
                self.slots() == insert_all(before, parsed_slots(decoded)),
                crate::cache::cache_entries(cache.versions@) == cacheable(lines, decoded),
            ensures
                all_decode(*parse, lines, decoded),
            decreases iter.rest().len(),
        {
            let ghost left = iter.rest();
            let line = match iter.next() {
                None => {
                    break;
                },
                Some(line) => line,
            };
            let ghost n = decoded.len() as int;
            let ghost earlier = decoded;
            proof {
                assert(crate::split::pieces(left, NEWLINE) == seq![line@] + crate::split::pieces(
                    iter.rest(),
                    NEWLINE,
                ));
                assert(lines.skip(n)[0] == lines[n]);
                assert((seq![line@] + crate::split::pieces(iter.rest(), NEWLINE)).drop_first()
                    =~= crate::split::pieces(iter.rest(), NEWLINE));
            }
            let outcome = parse(line);
            proof {
                decoded = decoded.push(outcome);
                lemma_kept_push(earlier, outcome);
            }
            match outcome {
                Ok(summary) => {
                    let version = summary.summary.package_id.version.clone();
                    let ghost entries = crate::cache::cache_entries(cache.versions@);
                    cache.versions.push((version.clone(), line));
                    let ghost slots = self.slots();
                    proof {
                        let new = Slot {
                            version: version@,
                            summary: MaybeIndexSummary::Parsed(summary),
                        };
                        lemma_insert_distinct(slots, new);
                        assert(crate::cache::cache_entries(cache.versions@) =~= entries.push(
                            (version@, line@),
                        ));
                        assert(parsed_slots(decoded).drop_last() =~= parsed_slots(earlier));
                    }
                    self.ret.insert(version, MaybeIndexSummary::from(summary));
                },
                Err(_) => {
                    proof {
                        assert(parsed_slots(decoded) =~= parsed_slots(earlier));
                    }
                },
            }
        }
        if let Some(index_version) = &self.index_version {
            self.cache_bytes = Some(cache.serialize(index_version));
        }
    }

    /// Ends loading, given what the loading of the file came to.
    ///
    /// Lookup failures are ignored, as those are just packages which don't
    /// exist. Once a file was read, though, an error counts.
    pub fn finish<E>(self, result: Result<(), E>) -> (r: Result<LoadOutcome, E>)
        requires
            self.wf(),
        ensures
            if !self.is_hit() {
                r == Ok::<LoadOutcome, E>(
                    LoadOutcome::Missing { has_fresh_cache: self.cache_contents() is Some },
                )
            } else {
                match result {
                    Err(e) => r == Err::<LoadOutcome, E>(e),
                    Ok(_) => r matches Ok(LoadOutcome::Found {
                        summaries,
                        cache_bytes,
                        is_cache_wrong,
                    }) && {
                        &&& summaries.wf()
                        &&& summaries.raw_data() == Seq::<u8>::empty()
                        &&& are_parsed(summaries.slots())
                        &&& summaries.slots() == self.slots()
                        &&& bytes_of(cache_bytes) == self.cache_bytes()
                        &&& is_cache_wrong == (self.cache_contents() is Some
                            && self.cache_contents() != self.cache_bytes())
                    },
                }
            },
    {
        if !self.hit_closure {
            return Ok(LoadOutcome::Missing { has_fresh_cache: self.cache_contents.is_some() });
        }
        match result {
            Err(e) => Err(e),
            Ok(_) => {
                let is_cache_wrong = match (&self.cache_contents, &self.cache_bytes) {
                    (None, _) => false,
                    (Some(_), None) => true,
                    (Some(a), Some(b)) => !same_bytes(a, b),
                };
                Ok(
                    LoadOutcome::Found {
                        summaries: self.ret,
                        cache_bytes: self.cache_bytes,
                        is_cache_wrong,
                    },
                )
            },
        }
    }
}

/// One more line.
proof fn lemma_kept_push<E>(decoded: Seq<Result<IndexSummary, E>>, new: Result<IndexSummary, E>)
    ensures
        kept(decoded.push(new)) == if new is Ok {
            kept(decoded).push(decoded.len() as int)
        } else {
            kept(decoded)
        },
        forall|i: int|
            0 <= i < kept(decoded).len() ==> 0 <= #[trigger] kept(decoded)[i] < decoded.len()
                && decoded[kept(decoded)[i]] is Ok,
    decreases decoded.len(),
{
    assert(decoded.push(new).drop_last() =~= decoded);
    if decoded.len() > 0 {
        lemma_kept_push(decoded.drop_last(), decoded.last());
    }
}

/// Two lists of the same versions, put in one by one, give the same versions,
/// and what is known of each comes from one place in the two lists.
proof fn lemma_insert_alike(a: Seq<Slot>, b: Seq<Slot>)
    requires
        a.len() == b.len(),
        forall|i: int| 0 <= i < a.len() ==> (#[trigger] a[i]).version == b[i].version,
    ensures
        insert_all(Seq::empty(), a).len() == insert_all(Seq::empty(), b).len(),
        forall|i: int|
            0 <= i < insert_all(Seq::empty(), a).len() ==> (#[trigger] insert_all(
                Seq::empty(),
                a,
            )[i]).version == insert_all(Seq::empty(), b)[i].version && exists|j: int|
                0 <= j < a.len() && insert_all(Seq::empty(), a)[i].summary == (
                #[trigger] a[j]).summary && insert_all(Seq::empty(), b)[i].summary == b[j].summary,
        are_distinct(insert_all(Seq::empty(), a)),
        are_distinct(insert_all(Seq::empty(), b)),
    decreases a.len(),
{
    if a.len() > 0 {
        let n = a.len() - 1;
        let fa = a.drop_last();
        let fb = b.drop_last();
        lemma_insert_alike(fa, fb);
        let ra = insert_all(Seq::empty(), fa);
        let rb = insert_all(Seq::empty(), fb);
        lemma_insert_distinct(ra, a[n]);
        lemma_insert_distinct(rb, b[n]);
        assert(forall|i: int| #[trigger]
            is_at(ra, a[n].version, i) == is_at(rb, b[n].version, i));
        if exists|i: int| is_at(rb, b[n].version, i) {
            let i = choose|i: int| is_at(rb, b[n].version, i);
            assert(is_at(ra, a[n].version, i));
        }
    }
}

/// Whether an entry made from a cache file stands for an entry made from the
/// file of the registry: it has the same version, and the bytes that it points
/// to are the line which the other was parsed from.
pub open spec fn stands_for<E>(
    data: Seq<u8>,
    lines: Seq<Seq<u8>>,
    decoded: Seq<Result<IndexSummary, E>>,
    cached: Slot,
    parsed: Slot,
) -> bool {
    &&& cached.version == parsed.version
    &&& exists|j: int|
        0 <= j < lines.len() && (#[trigger] decoded[j]) is Ok && parsed.summary
            == MaybeIndexSummary::Parsed(decoded[j]->Ok_0) && (
        cached.summary matches MaybeIndexSummary::Unparsed { start, end } && data.subrange(
            start as int,
            end as int,
        ) == lines[j])
}

/// It does not matter where summaries are loaded from: the cache file that is
/// made of an index file has the same versions, each of them with the line that
/// gives its summary.
pub proof fn law_cache_stands_for_index<E>(
    lines: Seq<Seq<u8>>,
    decoded: Seq<Result<IndexSummary, E>>,
    index_version: Seq<char>,
)
    requires
        lines.len() == decoded.len(),
        crate::cache::no_nul(vstd::utf8::encode_utf8(index_version)),
        are_readable(decoded),
        have_no_nul(lines, decoded),
        crate::cache::cache_bytes(cacheable(lines, decoded), index_version).len() <= usize::MAX,
    ensures
        ({
            let data = crate::cache::cache_bytes(cacheable(lines, decoded), index_version);
            let cached = insert_all(
                Seq::empty(),
                unparsed_slots(crate::cache::cache_ranges(data, index_version)->Ok_0),
            );
            let parsed = insert_all(Seq::empty(), parsed_slots(decoded));
            &&& is_fresh(Some(index_version), Some(data))
            &&& cached.len() == parsed.len()
            &&& forall|i: int|
                0 <= i < cached.len() ==> stands_for(
                    data,
                    lines,
                    decoded,
                    #[trigger] cached[i],
                    parsed[i],
                )
        }),
{
    let entries = cacheable(lines, decoded);
    let data = crate::cache::cache_bytes(entries, index_version);
    lemma_kept_push(decoded, arbitrary());
    crate::cache::law_cache_round_trip(entries, index_version);
    let places = crate::cache::cache_ranges(data, index_version)->Ok_0;
    crate::cache::lemma_cache_ranges_within(data, index_version);
    let a = unparsed_slots(places);
    let b = parsed_slots(decoded);
    assert forall|i: int| 0 <= i < a.len() implies (#[trigger] a[i]).version == b[i].version by {
        assert(crate::cache::entries_at(data, places)[i] == entries[i]);
    }
    lemma_insert_alike(a, b);
    let cached = insert_all(Seq::empty(), a);
    let parsed = insert_all(Seq::empty(), b);
    assert forall|i: int| 0 <= i < cached.len() implies stands_for(
        data,
        lines,
        decoded,
        #[trigger] cached[i],
        parsed[i],
    ) by {
        let j = choose|j: int|
            0 <= j < a.len() && cached[i].summary == (#[trigger] a[j]).summary && parsed[i].summary
                == b[j].summary;
        assert(crate::cache::entries_at(data, places)[j] == entries[j]);
    }
}

/// Whether an entry made from a cache file gives back what an entry made from
/// the file of the registry holds: it has the same version, and whatever `parse`
/// says of the bytes that it points to, it is the summary of the other.
pub open spec fn gives_back<E, F: Fn(&[u8]) -> Result<IndexSummary, E>>(
    parse: F,
    data: Seq<u8>,
    cached: Slot,
    parsed: Slot,
) -> bool {
    &&& cached.version == parsed.version
    &&& parsed.summary is Parsed
    &&& cached.summary matches MaybeIndexSummary::Unparsed { start, end } && {
        &&& start <= end <= data.len()
        &&& forall|r: Result<IndexSummary, E>| #[trigger]
            decodes(parse, data.subrange(start as int, end as int), r) ==> r == Ok::<
                IndexSummary,
                E,
            >(parsed.summary->Parsed_0)
    }
}

/// Reading the cache file that was made of an index file gives back the versions
/// of the index file, and parsing any of them gives back its summary.
pub proof fn law_cache_gives_back_summaries<E, F: Fn(&[u8]) -> Result<IndexSummary, E>>(
    parse: F,
    lines: Seq<Seq<u8>>,
    decoded: Seq<Result<IndexSummary, E>>,
    index_version: Seq<char>,
)
    requires
        is_settled(parse),
        all_decode(parse, lines, decoded),
        crate::cache::no_nul(vstd::utf8::encode_utf8(index_version)),
        are_readable(decoded),
        have_no_nul(lines, decoded),
        crate::cache::cache_bytes(cacheable(lines, decoded), index_version).len() <= usize::MAX,
    ensures
        ({
            let data = crate::cache::cache_bytes(cacheable(lines, decoded), index_version);
            let cached = insert_all(
                Seq::empty(),
                unparsed_slots(crate::cache::cache_ranges(data, index_version)->Ok_0),
            );
            let parsed = insert_all(Seq::empty(), parsed_slots(decoded));
            &&& crate::cache::cache_ranges(data, index_version) is Ok
            &&& cached.len() == parsed.len()
            &&& forall|i: int|
                0 <= i < cached.len() ==> gives_back(parse, data, #[trigger] cached[i], parsed[i])
        }),
{
    let data = crate::cache::cache_bytes(cacheable(lines, decoded), index_version);
    law_cache_stands_for_index(lines, decoded, index_version);
    crate::cache::lemma_cache_ranges_within(data, index_version);
    let places = crate::cache::cache_ranges(data, index_version)->Ok_0;
    lemma_insert_all_within(unparsed_slots(places), data.len());
    let cached = insert_all(Seq::empty(), unparsed_slots(places));
    let parsed = insert_all(Seq::empty(), parsed_slots(decoded));
    assert forall|i: int| 0 <= i < cached.len() implies gives_back(
        parse,
        data,
        #[trigger] cached[i],
        parsed[i],
    ) by {
        assert(stands_for(data, lines, decoded, cached[i], parsed[i]));
        assert(cached[i].summary.is_within(data.len()));
        let j = choose|j: int|
            0 <= j < lines.len() && (#[trigger] decoded[j]) is Ok && parsed[i].summary
                == MaybeIndexSummary::Parsed(decoded[j]->Ok_0) && (
            cached[i].summary matches MaybeIndexSummary::Unparsed { start, end } && data.subrange(
                start as int,
                end as int,
            ) == lines[j]);
        assert(decodes(parse, lines[j], decoded[j]));
    }
}

/// Putting in entries that stand within the data gives entries that do.
proof fn lemma_insert_all_within(list: Seq<Slot>, len: nat)
    requires
        are_within(list, len),
    ensures
        are_within(insert_all(Seq::empty(), list), len),
    decreases list.len(),
{
    if list.len() > 0 {
        lemma_insert_all_within(list.drop_last(), len);
        assert(list[list.len() - 1].summary.is_within(len));
    }
}

/// Whether an entry may have become another when its summary was asked for.
pub open spec fn slot_parsed<E, F: Fn(&[u8]) -> Result<IndexSummary, E>>(
    parse: F,
    raw_data: Seq<u8>,
    old_slot: Slot,
    new_slot: Slot,
) -> bool {
    &&& new_slot.version == old_slot.version
    &&& match old_slot.summary {
        MaybeIndexSummary::Parsed(_) => new_slot.summary == old_slot.summary,
        MaybeIndexSummary::Unparsed { start, end } => {
            let line = raw_data.subrange(start as int, end as int);
            match new_slot.summary {
                MaybeIndexSummary::Parsed(s) => decodes(parse, line, Ok::<IndexSummary, E>(s)),
                MaybeIndexSummary::Unparsed { .. } => {
                    &&& new_slot.summary == old_slot.summary
                    &&& exists|e: E| decodes(parse, line, Err::<IndexSummary, E>(e))
                },
            }
        },
    }
}

/// Whether entries may have become others when the summaries of the versions
/// that a requirement lets through were asked for.
pub open spec fn slots_parsed<E, F: Fn(&[u8]) -> Result<IndexSummary, E>>(
    parse: F,
    raw_data: Seq<u8>,
    req: Option<Seq<char>>,
    old_slots: Seq<Slot>,
    new_slots: Seq<Slot>,
) -> bool {
    &&& new_slots.len() == old_slots.len()
    &&& forall|i: int|
        0 <= i < old_slots.len() ==> if crate::version::req_matches(req, old_slots[i].version) {
            slot_parsed(parse, raw_data, old_slots[i], #[trigger] new_slots[i])
        } else {
            new_slots[i] == old_slots[i]
        }
}

/// Whether summaries may have become others in this way.
pub open spec fn summaries_parsed<E, F: Fn(&[u8]) -> Result<IndexSummary, E>>(
    parse: F,
    req: Option<Seq<char>>,
    old_summaries: Summaries,
    new_summaries: Summaries,
) -> bool {
    &&& new_summaries.wf()
    &&& new_summaries.raw_data() == old_summaries.raw_data()
    &&& slots_parsed(
        parse,
        old_summaries.raw_data(),
        req,
        old_summaries.slots(),
        new_summaries.slots(),
    )
}

/// Whether an entry is a candidate: a requirement lets its version through, its
/// summary is there, and it uses no unstable feature that is switched off.
pub open spec fn is_candidate(
    slot: Slot,
    req: Option<Seq<char>>,
    namespaced_features: bool,
    weak_dep_features: bool,
) -> bool {
    &&& crate::version::req_matches(req, slot.version)
    &&& slot.summary matches MaybeIndexSummary::Parsed(s) && s.summary.is_stable(
        namespaced_features,
        weak_dep_features,
    )
}

/// The candidates among some entries.
pub open spec fn candidates(
    slots: Seq<Slot>,
    req: Option<Seq<char>>,
    namespaced_features: bool,
    weak_dep_features: bool,
) -> Seq<IndexSummary>
    decreases slots.len(),
{
    if slots.len() == 0 {
        Seq::empty()
    } else {
        let front = candidates(slots.drop_last(), req, namespaced_features, weak_dep_features);
        if is_candidate(slots.last(), req, namespaced_features, weak_dep_features) {
            front.push(slots.last().summary->Parsed_0)
        } else {
            front
        }
    }
}

/// The values behind a list of references.
pub open spec fn values<T>(list: Seq<&T>) -> Seq<T> {
    Seq::new(list.len(), |i: int| *list[i])
}

impl Summaries {
    /// How many versions there are.
    pub fn len(&self) -> (r: usize)
        ensures
            r == self.slots().len(),
    {
        self.versions.len()
    }

    /// A version.
    pub fn version_at(&self, i: usize) -> (r: &Version)
        requires
            i < self.slots().len(),
        ensures
            r@ == self.slots()[i as int].version,
    {
        &self.versions[i].version
    }

    /// What is known of a version.
    pub fn summary_at(&self, i: usize) -> (r: &MaybeIndexSummary)
        requires
            i < self.slots().len(),
        ensures
            *r == self.slots()[i as int].summary,
    {
        &self.versions[i].summary
    }

    /// Parses the summary of a version, unless it is parsed already.
    pub fn parse_at<E, F: Fn(&[u8]) -> Result<IndexSummary, E>>(
        &mut self,
        i: usize,
        parse: &F,
    ) -> (r: Result<&IndexSummary, E>)
        requires
            old(self).wf(),
            i < old(self).slots().len(),
            forall|line: &[u8]| call_requires(*parse, (line,)),
        ensures
            final(self).wf(),
            final(self).raw_data() == old(self).raw_data(),
            final(self).slots().len() == old(self).slots().len(),
            forall|j: int|
                0 <= j < old(self).slots().len() && j != i ==> #[trigger] final(self).slots()[j]
                    == old(self).slots()[j],
            slot_parsed(
                *parse,
                old(self).raw_data(),
                old(self).slots()[i as int],
                final(self).slots()[i as int],
            ),
            match r {
                Ok(summary) => final(self).slots()[i as int].summary == MaybeIndexSummary::Parsed(
                    *summary,
                ),
                Err(e) => {
                    &&& final(self).slots() == old(self).slots()
                    &&& old(self).slots()[i as int].summary matches MaybeIndexSummary::Unparsed {
                        start,
                        end,
                    } && decodes(
                        *parse,
                        old(self).raw_data().subrange(start as int, end as int),
                        Err::<IndexSummary, E>(e),
                    )
                },
            },
    {
        let ghost before = self.slots();
        let ghost raw_data = self.raw_data();
        let entry = &mut self.versions[i];
        let refused = match entry.summary.parse(self.raw_data.as_slice(), parse) {
            Ok(_) => None,
            Err(e) => Some(e),
        };
        proof {
            let after = self.slots();
            assert(forall|j: int|
                0 <= j < before.len() ==> (#[trigger] after[j]).version == before[j].version
                    && after[j].summary.is_within(raw_data.len()));
        }
        match refused {
            Some(e) => Err(e),
            None => match &self.versions[i].summary {
                MaybeIndexSummary::Parsed(summary) => Ok(summary),
                MaybeIndexSummary::Unparsed { .. } => vstd::pervasive::unreached(),
            },
        }
    }

    /// Parses the summaries of the versions that a requirement lets through.
    pub fn parse_matching<E, F: Fn(&[u8]) -> Result<IndexSummary, E>>(
        &mut self,
        req: &VersionReq,
        parse: &F,
    )
        requires
            old(self).wf(),
            forall|line: &[u8]| call_requires(*parse, (line,)),
        ensures
            summaries_parsed(*parse, req@, *old(self), *final(self)),
    {
        let ghost before = self.slots();
        let n: usize = self.len();
        let mut i: usize = 0;
        while i < n
            invariant
                i <= n,
                n == before.len(),
                before == old(self).slots(),
                self.wf(),
                self.raw_data() == old(self).raw_data(),
                self.slots().len() == n,
                forall|line: &[u8]| call_requires(*parse, (line,)),
                forall|j: int| i <= j < n ==> #[trigger] self.slots()[j] == before[j],
                forall|j: int|
                    0 <= j < i ==> if crate::version::req_matches(req@, before[j].version) {
                        slot_parsed(*parse, old(self).raw_data(), before[j], #[trigger]
                            self.slots()[j])
                    } else {
                        self.slots()[j] == before[j]
                    },
            decreases n - i,
        {
            if req.matches(self.version_at(i)) {
                match self.parse_at(i, parse) {
                    Ok(_) => {},
                    Err(_) => {},
                }
            }
            i += 1;
        }
    }

    /// The candidates, in the order of the versions.
    pub fn candidates<'a>(
        &'a self,
        req: &VersionReq,
        namespaced_features: bool,
        weak_dep_features: bool,
    ) -> (r: Vec<&'a IndexSummary>)
        ensures
            values(r@) == candidates(self.slots(), req@, namespaced_features, weak_dep_features),
    {
        let mut out: Vec<&'a IndexSummary> = Vec::new();
        let ghost slots = self.slots();
        let mut i: usize = 0;
        while i < self.len()
            invariant
                i <= slots.len(),
                slots == self.slots(),
                values(out@) == candidates(
                    slots.take(i as int),
                    req@,
                    namespaced_features,
                    weak_dep_features,
                ),
            decreases slots.len() - i,
        {
            assert(slots.take(i + 1).drop_last() =~= slots.take(i as int));
            if req.matches(self.version_at(i)) {
                if let MaybeIndexSummary::Parsed(summary) = self.summary_at(i) {
                    if summary.summary.unstable_gate(namespaced_features, weak_dep_features) {
                        out.push(summary);
                    }
                }
            }
            i += 1;
        }
        assert(slots.take(i as int) =~= slots);
        out
    }
}

/// Where the candidates stand.
proof fn lemma_candidate_places(
    slots: Seq<Slot>,
    req: Option<Seq<char>>,
    namespaced_features: bool,
    weak_dep_features: bool,
)
    ensures
        forall|i: int|
            0 <= i < candidates(slots, req, namespaced_features, weak_dep_features).len()
                ==> exists|j: int|
                0 <= j < slots.len() && is_candidate(
                    #[trigger] slots[j],
                    req,
                    namespaced_features,
                    weak_dep_features,
                ) && #[trigger] candidates(slots, req, namespaced_features, weak_dep_features)[i]
                    == slots[j].summary->Parsed_0,
        forall|j: int|
            0 <= j < slots.len() && is_candidate(
                #[trigger] slots[j],
                req,
                namespaced_features,
                weak_dep_features,
            ) ==> candidates(slots, req, namespaced_features, weak_dep_features).contains(
                slots[j].summary->Parsed_0,
            ),
    decreases slots.len(),
{
    if slots.len() > 0 {
        let front = slots.drop_last();
        lemma_candidate_places(front, req, namespaced_features, weak_dep_features);
        let all = candidates(slots, req, namespaced_features, weak_dep_features);
        let some = candidates(front, req, namespaced_features, weak_dep_features);
        let n = slots.len() - 1;
        assert forall|j: int|
            0 <= j < slots.len() && is_candidate(
                #[trigger] slots[j],
                req,
                namespaced_features,
                weak_dep_features,
            ) implies all.contains(slots[j].summary->Parsed_0) by {
            if j < n {
                assert(front[j] == slots[j]);
                let i = choose|i: int|
                    0 <= i < some.len() && some[i] == slots[j].summary->Parsed_0;
                assert(all[i] == some[i]);
            } else {
                assert(all[some.len() as int] == slots[j].summary->Parsed_0);
            }
        }
    }
}

/// The candidates are the parsed summaries of the versions that meet the
/// requirement and use no unstable feature that is switched off; there is no
/// other, and none of them is left out.
pub proof fn law_candidates(
    slots: Seq<Slot>,
    req: Option<Seq<char>>,
    namespaced_features: bool,
    weak_dep_features: bool,
    summary: IndexSummary,
)
    ensures
        candidates(slots, req, namespaced_features, weak_dep_features).contains(summary) <==> exists|
            j: int,
        |
            0 <= j < slots.len() && crate::version::req_matches(
                req,
                (#[trigger] slots[j]).version,
            ) && slots[j].summary == MaybeIndexSummary::Parsed(summary)
                && summary.summary.is_stable(namespaced_features, weak_dep_features),
{
    lemma_candidate_places(slots, req, namespaced_features, weak_dep_features);
}

/// No more than one version meets a requirement that asks for one version, and
/// its summary is then the only candidate.
pub proof fn law_one_exact_candidate(
    slots: Seq<Slot>,
    req: Option<Seq<char>>,
    version: VersionView,
    namespaced_features: bool,
    weak_dep_features: bool,
)
    requires
        are_distinct(slots),
        crate::version::is_exact(req, version),
    ensures
        candidates(slots, req, namespaced_features, weak_dep_features).len() <= 1,
        forall|j: int|
            0 <= j < slots.len() && (#[trigger] slots[j]).version.key() == version.key()
                && is_candidate(slots[j], req, namespaced_features, weak_dep_features)
                ==> candidates(slots, req, namespaced_features, weak_dep_features) == seq![
                slots[j].summary->Parsed_0,
            ],
    decreases slots.len(),
{
    if slots.len() > 0 {
        let front = slots.drop_last();
        let some = candidates(front, req, namespaced_features, weak_dep_features);
        let n = slots.len() - 1;
        law_one_exact_candidate(front, req, version, namespaced_features, weak_dep_features);
        if some.len() > 0 && is_candidate(slots[n], req, namespaced_features, weak_dep_features) {
            lemma_candidate_places(front, req, namespaced_features, weak_dep_features);
            let j = choose|j: int|
                0 <= j < front.len() && is_candidate(
                    #[trigger] front[j],
                    req,
                    namespaced_features,
                    weak_dep_features,
                ) && some[0] == front[j].summary->Parsed_0;
            assert(slots[j].version.key() != slots[n].version.key());
        }
        lemma_candidate_places(slots, req, namespaced_features, weak_dep_features);
    }
}

/// Whether `parse` says one thing of each line.
pub open spec fn is_settled<E, F: Fn(&[u8]) -> Result<IndexSummary, E>>(parse: F) -> bool {
    forall|line: Seq<u8>, a: Result<IndexSummary, E>, b: Result<IndexSummary, E>|
        #[trigger] decodes(parse, line, a) && #[trigger] decodes(parse, line, b) ==> a == b
}

/// Asking twice gives the same candidates: what was parsed stays, and what
/// cannot be parsed is not there the second time either.
pub proof fn law_candidates_stay<E, F: Fn(&[u8]) -> Result<IndexSummary, E>>(
    parse: F,
    raw_data: Seq<u8>,
    req: Option<Seq<char>>,
    before: Seq<Slot>,
    once: Seq<Slot>,
    twice: Seq<Slot>,
)
    requires
        is_settled(parse),
        slots_parsed(parse, raw_data, req, before, once),
        slots_parsed(parse, raw_data, req, once, twice),
    ensures
        twice == once,
{
}

/// Entries that stand for others have the same candidates, once those that
/// meet the requirement are parsed.
proof fn lemma_same_candidates<E, F: Fn(&[u8]) -> Result<IndexSummary, E>>(
    parse: F,
    data: Seq<u8>,
    lines: Seq<Seq<u8>>,
    decoded: Seq<Result<IndexSummary, E>>,
    req: Option<Seq<char>>,
    cached: Seq<Slot>,
    after: Seq<Slot>,
    parsed: Seq<Slot>,
    namespaced_features: bool,
    weak_dep_features: bool,
)
    requires
        is_settled(parse),
        all_decode(parse, lines, decoded),
        cached.len() == parsed.len(),
        forall|i: int|
            0 <= i < cached.len() ==> stands_for(
                data,
                lines,
                decoded,
                #[trigger] cached[i],
                parsed[i],
            ),
        slots_parsed(parse, data, req, cached, after),
    ensures
        candidates(after, req, namespaced_features, weak_dep_features) == candidates(
            parsed,
            req,
            namespaced_features,
            weak_dep_features,
        ),
    decreases cached.len(),
{
    if cached.len() > 0 {
        let n = cached.len() - 1;
        let c = cached[n];
        let a = after[n];
        if crate::version::req_matches(req, c.version) {
            assert(a.summary == parsed[n].summary);
        }
        let cf = cached.drop_last();
        let af = after.drop_last();
        let pf = parsed.drop_last();
        lemma_same_candidates(
            parse,
            data,
            lines,
            decoded,
            req,
            cf,
            af,
            pf,
            namespaced_features,
            weak_dep_features,
        );
    }
}

/// A question is answered alike wherever the summaries were loaded from: the
/// cache file that is made of an index file gives the candidates that the
/// index file itself gives, whatever the requirement.
pub proof fn law_cache_answers_like_index<E, F: Fn(&[u8]) -> Result<IndexSummary, E>>(
    parse: F,
    lines: Seq<Seq<u8>>,
    decoded: Seq<Result<IndexSummary, E>>,
    index_version: Seq<char>,
    req: Option<Seq<char>>,
    after: Seq<Slot>,
    namespaced_features: bool,
    weak_dep_features: bool,
)
    requires
        is_settled(parse),
        all_decode(parse, lines, decoded),
        crate::cache::no_nul(vstd::utf8::encode_utf8(index_version)),
        are_readable(decoded),
        have_no_nul(lines, decoded),
        crate::cache::cache_bytes(cacheable(lines, decoded), index_version).len() <= usize::MAX,
        slots_parsed(
            parse,
            crate::cache::cache_bytes(cacheable(lines, decoded), index_version),
            req,
            insert_all(
                Seq::empty(),
                unparsed_slots(
                    crate::cache::cache_ranges(
                        crate::cache::cache_bytes(cacheable(lines, decoded), index_version),
                        index_version,
                    )->Ok_0,
                ),
            ),
            after,
        ),
    ensures
        candidates(after, req, namespaced_features, weak_dep_features) == candidates(
            insert_all(Seq::empty(), parsed_slots(decoded)),
            req,
            namespaced_features,
            weak_dep_features,
        ),
{
    let data = crate::cache::cache_bytes(cacheable(lines, decoded), index_version);
    law_cache_stands_for_index(lines, decoded, index_version);
    lemma_same_candidates(
        parse,
        data,
        lines,
        decoded,
        req,
        insert_all(
            Seq::empty(),
            unparsed_slots(crate::cache::cache_ranges(data, index_version)->Ok_0),
        ),
        after,
        insert_all(Seq::empty(), parsed_slots(decoded)),
        namespaced_features,
        weak_dep_features,
    );
}

/// Whether the entry at place `l` is the last one of its version key.
spec fn is_last(list: Seq<Slot>, l: int) -> bool {
    &&& 0 <= l < list.len()
    &&& forall|m: int|
        l < m < list.len() ==> (#[trigger] list[m]).version.key() != list[l].version.key()
}

/// Whether the entry at place `f` is the first one of its version key.
spec fn is_first(list: Seq<Slot>, f: int) -> bool {
    &&& 0 <= f < list.len()
    &&& forall|m: int|
        0 <= m < f ==> (#[trigger] list[m]).version.key() != list[f].version.key()
}

/// Whether an entry is what is left of those with its version key.
spec fn is_left(list: Seq<Slot>, slot: Slot) -> bool {
    &&& exists|l: int| #[trigger]
        is_last(list, l) && list[l].version.key() == slot.version.key() && list[l].summary
            == slot.summary
    &&& exists|f: int| #[trigger] is_first(list, f) && list[f].version == slot.version
}

/// What is left of entries when one more is put in.
proof fn lemma_left(front: Seq<Slot>, new: Slot, slot: Slot)
    requires
        is_left(front, slot),
    ensures
        slot.version.key() != new.version.key() ==> is_left(front.push(new), slot),
        slot.version.key() == new.version.key() ==> is_left(
            front.push(new),
            Slot { version: slot.version, summary: new.summary },
        ),
{
    let list = front.push(new);
    let l = choose|l: int| #[trigger]
        is_last(front, l) && front[l].version.key() == slot.version.key() && front[l].summary
            == slot.summary;
    let f = choose|f: int| #[trigger] is_first(front, f) && front[f].version == slot.version;
    assert(list[l] == front[l]);
    assert(list[f] == front[f]);
    assert(is_first(list, f)) by {
        assert forall|m: int| 0 <= m < f implies (#[trigger] list[m]).version.key()
            != list[f].version.key() by {
            assert(list[m] == front[m]);
        }
    }
    if slot.version.key() == new.version.key() {
        assert(is_last(list, front.len() as int));
    } else {
        assert forall|m: int| l < m < list.len() implies (#[trigger] list[m]).version.key()
            != list[l].version.key() by {
            if m < front.len() {
                assert(list[m] == front[m]);
            }
        }
        assert(is_last(list, l));
    }
}

/// Entries that were put in have distinct versions.
proof fn lemma_put_in_distinct(list: Seq<Slot>)
    ensures
        are_distinct(insert_all(Seq::empty(), list)),
    decreases list.len(),
{
    if list.len() > 0 {
        lemma_put_in_distinct(list.drop_last());
        lemma_insert_distinct(insert_all(Seq::empty(), list.drop_last()), list.last());
    }
}

/// No version is lost when entries are put in one after the other: each of them
/// leaves an entry with its version key.
pub proof fn law_no_version_is_lost(list: Seq<Slot>, j: int) -> (i: int)
    requires
        0 <= j < list.len(),
    ensures
        0 <= i < insert_all(Seq::empty(), list).len(),
        insert_all(Seq::empty(), list)[i].version.key() == list[j].version.key(),
    decreases list.len(),
{
    let n = list.len() - 1;
    let front = list.drop_last();
    let new = list[n];
    let some = insert_all(Seq::empty(), front);
    let slots = insert_all(Seq::empty(), list);
    assert(slots == insert_slot(some, new));
    if j < n {
        let i = law_no_version_is_lost(front, j);
        assert(slots[i].version == some[i].version);
        i
    } else if exists|i: int| is_at(some, new.version, i) {
        choose|i: int| is_at(some, new.version, i)
    } else {
        some.len() as int
    }
}

/// An entry that was put in is what is left of those with its version key.
proof fn lemma_put_in_left(list: Seq<Slot>, i: int)
    requires
        0 <= i < insert_all(Seq::empty(), list).len(),
    ensures
        is_left(list, insert_all(Seq::empty(), list)[i]),
    decreases list.len(),
{
    if list.len() > 0 {
        let n = list.len() - 1;
        let front = list.drop_last();
        let new = list[n];
        assert(front.push(new) =~= list);
        let some = insert_all(Seq::empty(), front);
        let slots = insert_all(Seq::empty(), list);
        assert(slots == insert_slot(some, new));
        lemma_put_in_distinct(front);
        if i < some.len() {
            lemma_put_in_left(front, i);
            lemma_left(front, new, some[i]);
            if is_at(some, new.version, i) {
                let k = choose|k: int| is_at(some, new.version, k);
                if i < k {
                    assert(some[i].version.key() != some[k].version.key());
                } else if k < i {
                    assert(some[k].version.key() != some[i].version.key());
                }
            }
        } else {
            assert forall|m: int| 0 <= m < n implies (#[trigger] list[m]).version.key()
                != new.version.key() by {
                assert(front[m] == list[m]);
                let e = law_no_version_is_lost(front, m);
                assert(!is_at(some, new.version, e));
            }
            assert(is_first(list, n));
            assert(is_last(list, n));
        }
    }
}

/// What an entry holds after several were put in one after the other: what the
/// last of those with its version key held, with the version of the first of
/// them. No two entries have the same key.
pub proof fn law_last_one_stays(list: Seq<Slot>, i: int)
    requires
        0 <= i < insert_all(Seq::empty(), list).len(),
    ensures
        ({
            let slots = insert_all(Seq::empty(), list);
            &&& exists|l: int|
                {
                    &&& 0 <= l < list.len()
                    &&& (#[trigger] list[l]).version.key() == slots[i].version.key()
                    &&& list[l].summary == slots[i].summary
                    &&& forall|m: int|
                        l < m < list.len() ==> (#[trigger] list[m]).version.key()
                            != slots[i].version.key()
                }
            &&& exists|f: int|
                {
                    &&& 0 <= f < list.len()
                    &&& (#[trigger] list[f]).version == slots[i].version
                    &&& forall|m: int|
                        0 <= m < f ==> (#[trigger] list[m]).version.key() != slots[i].version.key()
                }
            &&& forall|j: int|
                0 <= j < slots.len() && j != i ==> (#[trigger] slots[j]).version.key()
                    != slots[i].version.key()
        }),
{
    let slots = insert_all(Seq::empty(), list);
    lemma_put_in_distinct(list);
    lemma_put_in_left(list, i);
    let l = choose|l: int| #[trigger]
        is_last(list, l) && list[l].version.key() == slots[i].version.key() && list[l].summary
            == slots[i].summary;
    assert(list[l].version.key() == slots[i].version.key());
    let f = choose|f: int| #[trigger] is_first(list, f) && list[f].version == slots[i].version;
    assert(list[f].version == slots[i].version);
    assert forall|j: int| 0 <= j < slots.len() && j != i implies (
    #[trigger] slots[j]).version.key() != slots[i].version.key() by {
        if i < j {
            assert(slots[i].version.key() != slots[j].version.key());
        }
    }
}

/// The lines that count are those that gave a summary, each once and in order.
proof fn lemma_kept<E>(decoded: Seq<Result<IndexSummary, E>>)
    ensures
        forall|i: int|
            0 <= i < kept(decoded).len() ==> 0 <= #[trigger] kept(decoded)[i] < decoded.len()
                && decoded[kept(decoded)[i]] is Ok,
        forall|i: int, j: int|
            0 <= i < j < kept(decoded).len() ==> kept(decoded)[i] < kept(decoded)[j],
        forall|j: int|
            #![trigger decoded[j]]
            0 <= j < decoded.len() && decoded[j] is Ok ==> kept(decoded).contains(j),
    decreases decoded.len(),
{
    if decoded.len() > 0 {
        let front = decoded.drop_last();
        let n = decoded.len() - 1;
        lemma_kept(front);
        let some = kept(front);
        let all = kept(decoded);
        assert forall|j: int|
            #![trigger decoded[j]]
            0 <= j < decoded.len() && decoded[j] is Ok implies all.contains(j) by {
            if j < n {
                assert(front[j] == decoded[j]);
                let i = choose|i: int| 0 <= i < some.len() && some[i] == j;
                assert(all[i] == j);
            } else {
                assert(all[some.len() as int] == n);
            }
        }
        assert forall|i: int| 0 <= i < all.len() implies 0 <= #[trigger] all[i] < decoded.len()
            && decoded[all[i]] is Ok by {
            if i < some.len() {
                assert(some[i] == all[i]);
                assert(front[some[i]] == decoded[some[i]]);
            }
        }
    }
}

/// What reading a file of the registry makes of a line: `parse` was asked about
/// it, and if it gave a summary, there is an entry whose version has the key of
/// the version of that summary.
pub proof fn law_every_line_counts<E, F: Fn(&[u8]) -> Result<IndexSummary, E>>(
    parse: F,
    lines: Seq<Seq<u8>>,
    decoded: Seq<Result<IndexSummary, E>>,
    i: int,
)
    requires
        all_decode(parse, lines, decoded),
        0 <= i < lines.len(),
    ensures
        decoded.len() == lines.len(),
        exists|line: &[u8]|
            line@ == lines[i] && #[trigger] call_ensures(parse, (line,), decoded[i]),
        ({
            let slots = insert_all(Seq::empty(), parsed_slots(decoded));
            decoded[i] matches Ok(s) ==> exists|k: int|
                0 <= k < slots.len() && (#[trigger] slots[k]).version.key()
                    == s.summary.package_id.version@.key()
        }),
{
    assert(decodes(parse, lines[i], decoded[i]));
    if decoded[i] is Ok {
        lemma_kept(decoded);
        let list = parsed_slots(decoded);
        let l = choose|l: int| 0 <= l < kept(decoded).len() && kept(decoded)[l] == i;
        assert(list[l].version == version_of(decoded[i]));
        let k = law_no_version_is_lost(list, l);
        let slots = insert_all(Seq::empty(), list);
        assert(slots[k].version.key() == decoded[i]->Ok_0.summary.package_id.version@.key());
    }
}

/// What reading a file of the registry makes of a version: every entry comes
/// from a line that gave a summary, and holds the summary of the last such line
/// with its version key. No two entries have the same key.
pub proof fn law_last_line_counts<E>(decoded: Seq<Result<IndexSummary, E>>, k: int)
    requires
        0 <= k < insert_all(Seq::empty(), parsed_slots(decoded)).len(),
    ensures
        ({
            let slots = insert_all(Seq::empty(), parsed_slots(decoded));
            &&& exists|i: int|
                {
                    &&& 0 <= i < decoded.len()
                    &&& (#[trigger] decoded[i]) is Ok
                    &&& slots[k].summary == MaybeIndexSummary::Parsed(decoded[i]->Ok_0)
                    &&& slots[k].version.key()
                        == decoded[i]->Ok_0.summary.package_id.version@.key()
                    &&& forall|j: int|
                        i < j < decoded.len() && (#[trigger] decoded[j]) is Ok
                            ==> decoded[j]->Ok_0.summary.package_id.version@.key()
                            != slots[k].version.key()
                }
            &&& forall|l: int|
                0 <= l < slots.len() && l != k ==> (#[trigger] slots[l]).version.key()
                    != slots[k].version.key()
        }),
{
    lemma_kept(decoded);
    let list = parsed_slots(decoded);
    let slots = insert_all(Seq::empty(), list);
    law_last_one_stays(list, k);
    let l = choose|l: int|
        {
            &&& 0 <= l < list.len()
            &&& (#[trigger] list[l]).version.key() == slots[k].version.key()
            &&& list[l].summary == slots[k].summary
            &&& forall|m: int|
                l < m < list.len() ==> (#[trigger] list[m]).version.key() != slots[k].version.key()
        };
    let i = kept(decoded)[l];
    assert(list[l].version == version_of(decoded[i]));
    assert forall|j: int|
        i < j < decoded.len() && (
        #[trigger] decoded[j]) is Ok implies decoded[j]->Ok_0.summary.package_id.version@.key()
        != slots[k].version.key() by {
        let m = choose|m: int| 0 <= m < kept(decoded).len() && kept(decoded)[m] == j;
        assert(list[m].version == version_of(decoded[j]));
        if m < l {
            assert(kept(decoded)[m] < kept(decoded)[l]);
        }
    }
    assert(decoded[i] is Ok);
}

/// What goes into the cache file: the lines that gave a summary, all of them,
/// each once and in order, and with each the version of its summary. The result
/// gives their places.
pub proof fn law_lines_to_cache<E>(
    lines: Seq<Seq<u8>>,
    decoded: Seq<Result<IndexSummary, E>>,
) -> (places: Seq<int>)
    requires
        lines.len() == decoded.len(),
    ensures
        cacheable(lines, decoded).len() == places.len(),
        forall|i: int|
            0 <= i < places.len() ==> {
                &&& 0 <= #[trigger] places[i] < lines.len()
                &&& decoded[places[i]] is Ok
                &&& cacheable(lines, decoded)[i].0
                    == decoded[places[i]]->Ok_0.summary.package_id.version@
                &&& cacheable(lines, decoded)[i].1 == lines[places[i]]
            },
        forall|i: int, j: int| 0 <= i < j < places.len() ==> places[i] < places[j],
        forall|j: int|
            #![trigger decoded[j]]
            0 <= j < lines.len() && decoded[j] is Ok ==> places.contains(j),
{
    lemma_kept(decoded);
    kept(decoded)
}

/// What reading a cache file makes of a version that the file gives: there is an
/// entry with its key.
pub proof fn law_every_place_counts(places: Seq<crate::cache::RangeView>, i: int) -> (k: int)
    requires
        0 <= i < places.len(),
    ensures
        0 <= k < insert_all(Seq::empty(), unparsed_slots(places)).len(),
        insert_all(Seq::empty(), unparsed_slots(places))[k].version.key()
            == places[i].version.key(),
{
    assert(unparsed_slots(places)[i].version == places[i].version);
    law_no_version_is_lost(unparsed_slots(places), i)
}

/// What an entry that was read from a cache file holds: the last place that the
/// file gives for its version key. No two entries have the same key.
pub proof fn law_last_place_counts(places: Seq<crate::cache::RangeView>, k: int)
    requires
        forall|i: int|
            0 <= i < places.len() ==> 0 <= (#[trigger] places[i]).start <= places[i].end
                <= usize::MAX,
        0 <= k < insert_all(Seq::empty(), unparsed_slots(places)).len(),
    ensures
        ({
            let slots = insert_all(Seq::empty(), unparsed_slots(places));
            &&& exists|i: int|
                {
                    &&& 0 <= i < places.len()
                    &&& (#[trigger] places[i]).version.key() == slots[k].version.key()
                    &&& slots[k].summary matches MaybeIndexSummary::Unparsed { start, end }
                        && start == places[i].start && end == places[i].end
                    &&& forall|j: int|
                        i < j < places.len() ==> (#[trigger] places[j]).version.key()
                            != slots[k].version.key()
                }
            &&& forall|l: int|
                0 <= l < slots.len() && l != k ==> (#[trigger] slots[l]).version.key()
                    != slots[k].version.key()
        }),
{
    let list = unparsed_slots(places);
    let slots = insert_all(Seq::empty(), list);
    law_last_one_stays(list, k);
    let i = choose|l: int|
        {
            &&& 0 <= l < list.len()
            &&& (#[trigger] list[l]).version.key() == slots[k].version.key()
            &&& list[l].summary == slots[k].summary
            &&& forall|m: int|
                l < m < list.len() ==> (#[trigger] list[m]).version.key() != slots[k].version.key()
        };
    assert(list[i].version == places[i].version);
    assert forall|j: int| i < j < places.len() implies (#[trigger] places[j]).version.key()
        != slots[k].version.key() by {
        assert(list[j].version == places[j].version);
    }
}

/// A cache file is used exactly if there is a state of the index, the file is
/// there, and it can be read as one that belongs to that state.
pub proof fn law_fresh(index_version: Option<Seq<char>>, cache_file: Option<Seq<u8>>)
    ensures
        is_fresh(index_version, cache_file) <==> match (index_version, cache_file) {
            (Some(v), Some(data)) => crate::cache::cache_ranges(data, v) is Ok,
            _ => false,
        },
{
}

/// What asking for the summaries of the versions that meet a requirement does.
///
/// A summary that is parsed stays, and so does all that is known of a version
/// that does not meet the requirement. An unparsed one whose version meets it
/// becomes what `parse` made of the bytes that it points to. It stays unparsed
/// only if `parse` refused those bytes. The raw data stay, and so do the
/// versions.
pub proof fn law_matching_entries_are_parsed<E, F: Fn(&[u8]) -> Result<IndexSummary, E>>(
    parse: F,
    req: Option<Seq<char>>,
    before: Summaries,
    after: Summaries,
    i: int,
)
    requires
        summaries_parsed(parse, req, before, after),
        0 <= i < before.slots().len(),
    ensures
        after.raw_data() == before.raw_data(),
        after.slots().len() == before.slots().len(),
        after.slots()[i].version == before.slots()[i].version,
        before.slots()[i].summary is Parsed || !crate::version::req_matches(
            req,
            before.slots()[i].version,
        ) ==> after.slots()[i].summary == before.slots()[i].summary,
        before.slots()[i].summary matches MaybeIndexSummary::Unparsed { start, end } ==> {
            crate::version::req_matches(req, before.slots()[i].version) ==> exists|
                line: &[u8],
                r: Result<IndexSummary, E>,
            |
                {
                    &&& line@ == before.raw_data().subrange(start as int, end as int)
                    &&& #[trigger] call_ensures(parse, (line,), r)
                    &&& after.slots()[i].summary == match r {
                        Ok(s) => MaybeIndexSummary::Parsed(s),
                        Err(_) => before.slots()[i].summary,
                    }
                }
        },
{
    let old_slot = before.slots()[i];
    let new_slot = after.slots()[i];
    if let MaybeIndexSummary::Unparsed { start, end } = old_slot.summary {
        let data = before.raw_data().subrange(start as int, end as int);
        if crate::version::req_matches(req, old_slot.version) {
            assert(slot_parsed(parse, before.raw_data(), old_slot, new_slot));
            let r = match new_slot.summary {
                MaybeIndexSummary::Parsed(s) => Ok::<IndexSummary, E>(s),
                MaybeIndexSummary::Unparsed { .. } => {
                    Err::<IndexSummary, E>(
                        choose|e: E| decodes(parse, data, Err::<IndexSummary, E>(e)),
                    )
                },
            };
            assert(decodes(parse, data, r));
        }
    }
}

/// Where the candidates come from: the places of the versions that meet the
/// requirement and whose summary is parsed and uses no unstable feature that is
/// switched off, each once and in order. The result gives these places.
pub proof fn law_candidates_in_order(
    slots: Seq<Slot>,
    req: Option<Seq<char>>,
    namespaced_features: bool,
    weak_dep_features: bool,
) -> (places: Seq<int>)
    ensures
        ({
            let list = candidates(slots, req, namespaced_features, weak_dep_features);
            &&& list.len() == places.len()
            &&& forall|i: int|
                0 <= i < places.len() ==> 0 <= #[trigger] places[i] < slots.len()
                    && slots[places[i]].summary == MaybeIndexSummary::Parsed(list[i])
        }),
        forall|i: int, j: int| 0 <= i < j < places.len() ==> places[i] < places[j],
        forall|j: int|
            0 <= j < slots.len() ==> (#[trigger] places.contains(j) <==> {
                &&& crate::version::req_matches(req, slots[j].version)
                &&& slots[j].summary matches MaybeIndexSummary::Parsed(s) && {
                    &&& s.summary.uses_namespaced_features ==> namespaced_features
                    &&& s.summary.uses_weak_dep_features ==> weak_dep_features
                }
            }),
    decreases slots.len(),
{
    if slots.len() == 0 {
        Seq::empty()
    } else {
        let n = slots.len() - 1;
        let front = slots.drop_last();
        let some = law_candidates_in_order(front, req, namespaced_features, weak_dep_features);
        let is_picked = is_candidate(slots[n], req, namespaced_features, weak_dep_features);
        let places = if is_picked {
            some.push(n)
        } else {
            some
        };
        assert forall|j: int| 0 <= j < slots.len() implies (#[trigger] places.contains(j) <==> {
            &&& crate::version::req_matches(req, slots[j].version)
            &&& slots[j].summary matches MaybeIndexSummary::Parsed(s) && {
                &&& s.summary.uses_namespaced_features ==> namespaced_features
                &&& s.summary.uses_weak_dep_features ==> weak_dep_features
            }
        }) by {
            if j < n {
                assert(front[j] == slots[j]);
                if some.contains(j) {
                    let i = choose|i: int| 0 <= i < some.len() && some[i] == j;
                    assert(places[i] == j);
                }
                if places.contains(j) {
                    let i = choose|i: int| 0 <= i < places.len() && places[i] == j;
                    assert(some[i] == j);
                }
            } else {
                if is_picked {
                    assert(places[some.len() as int] == n);
                }
                if places.contains(n) && !is_picked {
                    let i = choose|i: int| 0 <= i < some.len() && some[i] == n;
                    assert(some[i] < front.len());
                }
            }
        }
        places
    }
}

/// The values behind a list of references are those behind each of them.
pub proof fn law_values<T>(list: Seq<&T>)
    ensures
        values(list).len() == list.len(),
        forall|i: int| 0 <= i < list.len() ==> #[trigger] values(list)[i] == *list[i],
{
}

} // verus!
