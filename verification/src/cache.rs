//! The cache file that holds what was learned from an index file.
//!
//! Currently the format looks like:
//!
//! ```text
//! +--------------+-------------+---+
//! | version byte | git sha rev | 0 |
//! +--------------+-------------+---+
//! ```
//!
//! followed by...
//!
//! ```text
//! +----------------+---+------------+---+
//! | semver version | 0 |  JSON blob | 0 | ...
//! +----------------+---+------------+---+
//! ```
//!
//! The idea is that this is a very easy file to parse in future invocations:
//! all that has to be known is which version goes with which JSON blob. The
//! leading version byte keeps readers of other formats apart, and the git sha
//! tells when the file has to be made anew.

use crate::split::split;
use crate::text::{append_bytes, read_utf8, same_bytes};
use crate::version::{Version, VersionView};
use vstd::prelude::*;
use vstd::utf8::*;

verus! {

/// The version byte of the format.
pub const CURRENT_CACHE_VERSION: u8 = 1;

/// Why a cache file is of no use.
#[derive(Debug)]
pub enum CacheError {
    /// The file is empty.
    MalformedCache,
    /// The file was written in another format.
    DifferentVersion,
    /// The file was written for another state of the index.
    OutOfDate { current: String, cached: String },
    /// The file ends where more has to come.
    MalformedFile,
    /// A text in the file is not UTF-8.
    InvalidUtf8,
    /// A version cannot be read; this is what the reader says.
    InvalidVersion(String),
}

/// The value of a [`CacheError`].
pub enum CacheErrorView {
    MalformedCache,
    DifferentVersion,
    OutOfDate { current: Seq<char>, cached: Seq<char> },
    MalformedFile,
    InvalidUtf8,
    InvalidVersion(Seq<char>),
}

impl View for CacheError {
    type V = CacheErrorView;

    open spec fn view(&self) -> CacheErrorView {
        match self {
            CacheError::MalformedCache => CacheErrorView::MalformedCache,
            CacheError::DifferentVersion => CacheErrorView::DifferentVersion,
            CacheError::OutOfDate { current, cached } => CacheErrorView::OutOfDate {
                current: current@,
                cached: cached@,
            },
            CacheError::MalformedFile => CacheErrorView::MalformedFile,
            CacheError::InvalidUtf8 => CacheErrorView::InvalidUtf8,
            CacheError::InvalidVersion(message) => CacheErrorView::InvalidVersion(message@),
        }
    }
}

/// A version in a cache file and the place of its JSON blob.
#[derive(Debug)]
pub struct CachedRange {
    pub version: Version,
    pub start: usize,
    pub end: usize,
}

/// The value of a [`CachedRange`].
pub struct RangeView {
    pub version: VersionView,
    pub start: int,
    pub end: int,
}

impl View for CachedRange {
    type V = RangeView;

    open spec fn view(&self) -> RangeView {
        RangeView { version: self.version@, start: self.start as int, end: self.end as int }
    }
}

/// The values of a list of ranges.
pub open spec fn ranges(list: Seq<CachedRange>) -> Seq<RangeView> {
    Seq::new(list.len(), |i: int| list[i]@)
}

/// What stands in front of a list that may have failed.
pub open spec fn prepend(
    front: Seq<RangeView>,
    rest: Result<Seq<RangeView>, CacheErrorView>,
) -> Result<Seq<RangeView>, CacheErrorView> {
    match rest {
        Ok(list) => Ok(front + list),
        Err(e) => Err(e),
    }
}

/// The versions in the last bytes of a file, `rest`, and where their JSON blobs
/// stand in the file, which is `total` bytes long.
pub open spec fn body_ranges(rest: Seq<u8>, total: int) -> Result<Seq<RangeView>, CacheErrorView>
    decreases rest.len(),
{
    if rest.len() == 0 {
        Ok(Seq::empty())
    } else {
        let after = crate::split::after_piece(rest, 0);
        let tail = crate::split::after_piece(after, 0);
        match crate::text::utf8_text(crate::split::first_piece(rest, 0)) {
            None => Err(CacheErrorView::InvalidUtf8),
            Some(text) => match crate::version::version_parse(text) {
                Err(message) => Err(CacheErrorView::InvalidVersion(message)),
                Ok(version) => if after.len() == 0 {
                    Err(CacheErrorView::MalformedFile)
                } else {
                    let start = total - after.len();
                    let end = start + crate::split::piece_len(after, 0);
                    prepend(seq![RangeView { version, start, end }], body_ranges(tail, total))
                },
            },
        }
    }
}

/// The versions in a cache file and where their JSON blobs stand, if the file
/// is sound and was written for the state `current` of the index.
pub open spec fn cache_ranges(data: Seq<u8>, current: Seq<char>) -> Result<
    Seq<RangeView>,
    CacheErrorView,
> {
    let rest = data.drop_first();
    let update = crate::split::first_piece(rest, 0);
    if data.len() == 0 {
        Err(CacheErrorView::MalformedCache)
    } else if data[0] != CURRENT_CACHE_VERSION {
        Err(CacheErrorView::DifferentVersion)
    } else if rest.len() == 0 {
        Err(CacheErrorView::MalformedFile)
    } else if update == encode_utf8(current) {
        body_ranges(crate::split::after_piece(rest, 0), data.len() as int)
    } else {
        match crate::text::utf8_text(update) {
            Some(cached) => Err(CacheErrorView::OutOfDate { current, cached }),
            None => Err(CacheErrorView::InvalidUtf8),
        }
    }
}

/// The JSON blobs of the last bytes of a file stand within the file.
proof fn lemma_ranges_within(rest: Seq<u8>, total: int)
    requires
        rest.len() <= total,
    ensures
        body_ranges(rest, total) matches Ok(list) ==> forall|i: int|
            0 <= i < list.len() ==> 0 <= (#[trigger] list[i]).start <= list[i].end <= total,
    decreases rest.len(),
{
    if rest.len() > 0 {
        let after = crate::split::after_piece(rest, 0);
        let tail = crate::split::after_piece(after, 0);
        crate::split::lemma_after_shorter(after, 0);
        lemma_ranges_within(tail, total);
    }
}

/// The JSON blobs stand within the file.
pub proof fn lemma_cache_ranges_within(data: Seq<u8>, current: Seq<char>)
    ensures
        cache_ranges(data, current) matches Ok(list) ==> forall|i: int|
            0 <= i < list.len() ==> 0 <= (#[trigger] list[i]).start <= list[i].end <= data.len(),
{
    let rest = data.drop_first();
    if data.len() > 0 {
        lemma_ranges_within(crate::split::after_piece(rest, 0), data.len() as int);
    }
}

/// Finds the versions in a cache file and where their JSON blobs stand.
pub fn parse_ranges(data: &[u8], last_index_update: &str) -> (r: Result<
    Vec<CachedRange>,
    CacheError,
>)
    ensures
        match r {
            Ok(list) => {
                &&& cache_ranges(data@, last_index_update@) == Ok::<
                    Seq<RangeView>,
                    CacheErrorView,
                >(ranges(list@))
                &&& forall|i: int|
                    0 <= i < list@.len() ==> (#[trigger] list@[i]).start <= list@[i].end
                        <= data@.len() && list@[i].version@.is_readable()
            },
            Err(e) => cache_ranges(data@, last_index_update@) == Err::<
                Seq<RangeView>,
                CacheErrorView,
            >(e@),
        },
{
    let total: usize = data.len();
    if total == 0 {
        return Err(CacheError::MalformedCache);
    }
    if data[0] != CURRENT_CACHE_VERSION {
        return Err(CacheError::DifferentVersion);
    }
    let rest = vstd::slice::slice_subrange(data, 1, total);
    let mut iter = split(rest, 0);
    match iter.next() {
        None => {
            return Err(CacheError::MalformedFile);
        },
        Some(update) => {
            if !same_bytes(update, last_index_update.as_bytes()) {
                return match read_utf8(update) {
                    Some(cached) => Err(
                        CacheError::OutOfDate {
                            current: last_index_update.to_owned(),
                            cached: cached.to_owned(),
                        },
                    ),
                    None => Err(CacheError::InvalidUtf8),
                };
            }
        },
    }
    let ghost body = iter.rest();
    let ghost whole = body_ranges(body, total as int);
    let mut list: Vec<CachedRange> = Vec::new();
    loop
        invariant
            total == data@.len(),
            body.len() <= total,
            iter.needle() == 0,
            iter.rest().len() <= total,
            whole == body_ranges(body, total as int),
            whole == cache_ranges(data@, last_index_update@),
            prepend(ranges(list@), body_ranges(iter.rest(), total as int)) == whole,
            forall|i: int|
                0 <= i < list@.len() ==> (#[trigger] list@[i]).start <= list@[i].end <= data@.len()
                    && list@[i].version@.is_readable(),
        decreases iter.rest().len(),
    {
        let ghost before = iter.rest();
        proof {
            crate::split::lemma_after_shorter(crate::split::after_piece(before, 0), 0);
        }
        let text = match iter.next() {
            None => {
                return Ok(list);
            },
            Some(text) => text,
        };
        let text = match read_utf8(text) {
            None => {
                return Err(CacheError::InvalidUtf8);
            },
            Some(text) => text,
        };
        let version = match Version::parse(text) {
            Err(message) => {
                return Err(CacheError::InvalidVersion(message));
            },
            Ok(version) => version,
        };
        let start: usize = total - iter.rest_len();
        let summary = match iter.next() {
            None => {
                return Err(CacheError::MalformedFile);
            },
            Some(summary) => summary,
        };
        let end: usize = start + summary.len();
        let ghost earlier = ranges(list@);
        list.push(CachedRange { version, start, end });
        proof {
            let new = RangeView { version: version@, start: start as int, end: end as int };
            let more = body_ranges(iter.rest(), total as int);
            if let Ok(l) = more {
                assert(earlier + (seq![new] + l) =~= ranges(list@) + l);
            }
        }
    }
}

/// The contents of the cache file: each version with its JSON blob.
pub struct SummariesCache<'a> {
    pub versions: Vec<(Version, &'a [u8])>,
}

/// The values of the versions and JSON blobs of a cache.
pub open spec fn cache_entries(versions: Seq<(Version, &[u8])>) -> Seq<(VersionView, Seq<u8>)> {
    Seq::new(versions.len(), |i: int| (versions[i].0@, versions[i].1@))
}

/// The versions of a file with the bytes in their places.
pub open spec fn entries_at(data: Seq<u8>, places: Seq<RangeView>) -> Seq<
    (VersionView, Seq<u8>),
> {
    Seq::new(
        places.len(),
        |i: int| (places[i].version, data.subrange(places[i].start, places[i].end)),
    )
}

/// One version and its JSON blob in the file.
pub open spec fn entry_bytes(entry: (VersionView, Seq<u8>)) -> Seq<u8> {
    encode_utf8(crate::version::version_text(entry.0)) + seq![0u8] + (entry.1 + seq![0u8])
}

/// All versions and JSON blobs in the file.
pub open spec fn body_bytes(entries: Seq<(VersionView, Seq<u8>)>) -> Seq<u8>
    decreases entries.len(),
{
    if entries.len() == 0 {
        Seq::empty()
    } else {
        body_bytes(entries.drop_last()) + entry_bytes(entries.last())
    }
}

/// A cache file.
pub open spec fn cache_bytes(entries: Seq<(VersionView, Seq<u8>)>, index_version: Seq<char>) -> Seq<
    u8,
> {
    seq![CURRENT_CACHE_VERSION] + (encode_utf8(index_version) + seq![0u8] + body_bytes(entries))
}

impl<'a> SummariesCache<'a> {
    /// Reads a cache file.
    pub fn parse(data: &'a [u8], last_index_update: &str) -> (r: Result<
        SummariesCache<'a>,
        CacheError,
    >)
        ensures
            match r {
                Ok(cache) => cache_ranges(data@, last_index_update@) matches Ok(places)
                    && cache_entries(cache.versions@) == entries_at(data@, places),
                Err(e) => cache_ranges(data@, last_index_update@) == Err::<
                    Seq<RangeView>,
                    CacheErrorView,
                >(e@),
            },
    {
        let list = match parse_ranges(data, last_index_update) {
            Ok(list) => list,
            Err(e) => {
                return Err(e);
            },
        };
        let ghost places = ranges(list@);
        let mut versions: Vec<(Version, &'a [u8])> = Vec::new();
        let mut i: usize = 0;
        while i < list.len()
            invariant
                i <= list@.len(),
                places == ranges(list@),
                versions@.len() == i,
                forall|j: int|
                    0 <= j < list@.len() ==> (#[trigger] list@[j]).start <= list@[j].end
                        <= data@.len(),
                forall|j: int|
                    0 <= j < i ==> (#[trigger] versions@[j]).0@ == places[j].version
                        && versions@[j].1@ == data@.subrange(places[j].start, places[j].end),
            decreases list@.len() - i,
        {
            let summary = vstd::slice::slice_subrange(data, list[i].start, list[i].end);
            versions.push((list[i].version.clone(), summary));
            i += 1;
        }
        Ok(SummariesCache { versions })
    }

    /// Writes a cache file.
    pub fn serialize(&self, index_version: &str) -> (r: Vec<u8>)
        ensures
            r@ == cache_bytes(cache_entries(self.versions@), index_version@),
    {
        let mut contents: Vec<u8> = Vec::new();
        contents.push(CURRENT_CACHE_VERSION);
        append_bytes(&mut contents, index_version.as_bytes());
        contents.push(0);
        let ghost header = seq![CURRENT_CACHE_VERSION] + (encode_utf8(index_version@) + seq![0u8]);
        let ghost entries = cache_entries(self.versions@);
        let mut i: usize = 0;
        while i < self.versions.len()
            invariant
                i <= self.versions@.len(),
                entries == cache_entries(self.versions@),
                contents@ == header + body_bytes(entries.take(i as int)),
            decreases self.versions@.len() - i,
        {
            let text = self.versions[i].0.to_text();
            append_bytes(&mut contents, text.as_str().as_bytes());
            contents.push(0);
            append_bytes(&mut contents, self.versions[i].1);
            contents.push(0);
            proof {
                let upto = entries.take(i + 1);
                assert(upto.drop_last() =~= entries.take(i as int));
            }
            i += 1;
        }
        assert(entries.take(i as int) =~= entries);
        contents
    }
}

/// Whether a byte string holds no NUL byte.
pub open spec fn no_nul(bytes: Seq<u8>) -> bool {
    forall|i: int| 0 <= i < bytes.len() ==> bytes[i] != 0u8
}

/// Whether an entry survives being written: its version can be read back and
/// its JSON blob holds no NUL byte.
pub open spec fn is_storable(entry: (VersionView, Seq<u8>)) -> bool {
    entry.0.is_readable() && no_nul(entry.1)
}

/// The place of the first JSON blob in a written body that ends a file.
proof fn lemma_written_entry(
    whole: Seq<u8>,
    body: Seq<u8>,
    entry: (VersionView, Seq<u8>),
    more: Seq<u8>,
)
    requires
        is_storable(entry),
        body == entry_bytes(entry) + more,
        body.len() <= whole.len(),
        whole.skip(whole.len() - body.len()) == body,
    ensures
        ({
            let end = whole.len() - more.len() - 1;
            let start = end - entry.1.len();
            &&& body_ranges(body, whole.len() as int) == prepend(
                seq![RangeView { version: entry.0, start, end }],
                body_ranges(more, whole.len() as int),
            )
            &&& whole.subrange(start, end) == entry.1
            &&& whole.skip(whole.len() - more.len()) == more
        }),
{
    let chars = crate::version::version_text(entry.0);
    let text = encode_utf8(chars);
    crate::text::lemma_clean_bytes(chars);
    encode_utf8_valid_utf8(chars);
    encode_utf8_decode_utf8(chars);
    let after = entry.1 + seq![0u8] + more;
    assert(body =~= text + seq![0u8] + after);
    crate::split::lemma_split_front(text, after, 0);
    crate::split::lemma_split_front(entry.1, more, 0);
}

/// The places of the JSON blobs in a written body that ends a file.
proof fn lemma_written_body(whole: Seq<u8>, entries: Seq<(VersionView, Seq<u8>)>)
    requires
        forall|i: int| 0 <= i < entries.len() ==> is_storable(#[trigger] entries[i]),
        body_bytes(entries).len() <= whole.len(),
        whole.skip(whole.len() - body_bytes(entries).len()) == body_bytes(entries),
    ensures
        body_ranges(body_bytes(entries), whole.len() as int) matches Ok(places) && entries_at(
            whole,
            places,
        ) == entries,
    decreases entries.len(),
{
    let total = whole.len() as int;
    if entries.len() > 0 {
        let tail = entries.drop_first();
        let more = body_bytes(tail);
        lemma_body_front(entries);
        lemma_written_entry(whole, body_bytes(entries), entries[0], more);
        lemma_written_body(whole, tail);
        let places = body_ranges(body_bytes(entries), total)->Ok_0;
        let later = body_ranges(more, total)->Ok_0;
        assert forall|i: int| 0 <= i < entries.len() implies entries_at(whole, places)[i]
            == #[trigger] entries[i] by {
            if i > 0 {
                assert(entries_at(whole, later)[i - 1] == tail[i - 1]);
            }
        }
    }
}

/// The bytes of a list begin with those of its first entry.
proof fn lemma_body_front(entries: Seq<(VersionView, Seq<u8>)>)
    requires
        entries.len() > 0,
    ensures
        body_bytes(entries) == entry_bytes(entries[0]) + body_bytes(entries.drop_first()),
    decreases entries.len(),
{
    let tail = entries.drop_first();
    if entries.len() == 1 {
        assert(entries.drop_last() =~= Seq::empty());
        assert(tail =~= Seq::empty());
    } else {
        let front = entries.drop_last();
        lemma_body_front(front);
        assert(front.drop_first() =~= tail.drop_last());
    }
}

/// Reading a cache file gives back what was written into it: the same
/// versions, in the same order, each with its JSON blob.
pub proof fn law_cache_round_trip(
    entries: Seq<(VersionView, Seq<u8>)>,
    index_version: Seq<char>,
)
    requires
        forall|i: int| 0 <= i < entries.len() ==> is_storable(#[trigger] entries[i]),
        no_nul(encode_utf8(index_version)),
    ensures
        cache_ranges(cache_bytes(entries, index_version), index_version) matches Ok(places)
            && entries_at(cache_bytes(entries, index_version), places) == entries,
{
    let data = cache_bytes(entries, index_version);
    let body = body_bytes(entries);
    lemma_header(entries, index_version);
    assert(data.skip(data.len() - body.len()) =~= body);
    lemma_written_body(data, entries);
}

/// A cache file that was written for one state of the index is refused as out
/// of date in any other state.
pub proof fn law_cache_of_other_index_is_stale(
    entries: Seq<(VersionView, Seq<u8>)>,
    written: Seq<char>,
    current: Seq<char>,
)
    requires
        no_nul(encode_utf8(written)),
        written != current,
    ensures
        cache_ranges(cache_bytes(entries, written), current) == Err::<
            Seq<RangeView>,
            CacheErrorView,
        >(CacheErrorView::OutOfDate { current, cached: written }),
{
    lemma_header(entries, written);
    encode_utf8_decode_utf8(written);
    encode_utf8_decode_utf8(current);
    encode_utf8_valid_utf8(written);
}

/// What stands in front of the entries of a cache file.
proof fn lemma_header(entries: Seq<(VersionView, Seq<u8>)>, index_version: Seq<char>)
    requires
        no_nul(encode_utf8(index_version)),
    ensures
        cache_bytes(entries, index_version).len() > 1,
        cache_bytes(entries, index_version)[0] == CURRENT_CACHE_VERSION,
        crate::split::first_piece(cache_bytes(entries, index_version).drop_first(), 0)
            == encode_utf8(index_version),
        crate::split::after_piece(cache_bytes(entries, index_version).drop_first(), 0)
            == body_bytes(entries),
{
    let data = cache_bytes(entries, index_version);
    let update = encode_utf8(index_version);
    assert(data.drop_first() =~= update + seq![0u8] + body_bytes(entries));
    crate::split::lemma_split_front(update, body_bytes(entries), 0);
}

/// The layout of a cache file: a byte 1, the state of the index and a NUL byte,
/// and then, for each version that is added, its text, a NUL byte, its JSON blob
/// and a NUL byte at the end of what was there.
pub proof fn law_written_file(
    entries: Seq<(VersionView, Seq<u8>)>,
    version: VersionView,
    blob: Seq<u8>,
    index_version: Seq<char>,
)
    ensures
        cache_bytes(Seq::empty(), index_version) == seq![1u8] + encode_utf8(index_version) + seq![
            0u8,
        ],
        cache_bytes(entries.push((version, blob)), index_version) == cache_bytes(
            entries,
            index_version,
        ) + encode_utf8(crate::version::version_text(version)) + seq![0u8] + blob + seq![0u8],
{
    assert(cache_bytes(Seq::empty(), index_version) =~= seq![1u8] + encode_utf8(index_version)
        + seq![0u8]);
    assert(entries.push((version, blob)).drop_last() =~= entries);
    assert(cache_bytes(entries.push((version, blob)), index_version) =~= cache_bytes(
        entries,
        index_version,
    ) + encode_utf8(crate::version::version_text(version)) + seq![0u8] + blob + seq![0u8]);
}

/// How a cache file is refused at its beginning: an empty one, one that does not
/// begin with a byte 1, and one that holds nothing else.
pub proof fn law_unusable_file(data: Seq<u8>, current: Seq<char>)
    ensures
        data.len() == 0 <==> cache_ranges(data, current) == Err::<Seq<RangeView>, CacheErrorView>(
            CacheErrorView::MalformedCache,
        ),
        data.len() > 0 && data[0] != 1 <==> cache_ranges(data, current) == Err::<
            Seq<RangeView>,
            CacheErrorView,
        >(CacheErrorView::DifferentVersion),
        data.len() == 1 && data[0] == 1 ==> cache_ranges(data, current) == Err::<
            Seq<RangeView>,
            CacheErrorView,
        >(CacheErrorView::MalformedFile),
{
    if data.len() > 0 {
        lemma_body_errors(
            crate::split::after_piece(data.drop_first(), 0),
            data.len() as int,
        );
    }
}

/// A version that cannot be used is never the fault of the beginning of a file.
proof fn lemma_body_errors(rest: Seq<u8>, total: int)
    ensures
        body_ranges(rest, total) matches Err(e) ==> {
            &&& !(e is MalformedCache)
            &&& !(e is DifferentVersion)
            &&& !(e is OutOfDate)
        },
    decreases rest.len(),
{
    if rest.len() > 0 {
        let after = crate::split::after_piece(rest, 0);
        crate::split::lemma_after_shorter(rest, 0);
        crate::split::lemma_after_shorter(after, 0);
        lemma_body_errors(crate::split::after_piece(after, 0), total);
    }
}

/// How a cache file with a state of the index in it is read: it is refused unless
/// that state is the current one, and what follows decides otherwise.
pub proof fn law_state_of_the_index(written: Seq<u8>, body: Seq<u8>, current: Seq<char>)
    requires
        forall|i: int| 0 <= i < written.len() ==> written[i] != 0u8,
    ensures
        ({
            let data = seq![1u8] + (written + seq![0u8] + body);
            &&& written == encode_utf8(current) ==> cache_ranges(data, current) == body_ranges(
                body,
                data.len() as int,
            )
            &&& forall|state: Seq<char>|
                written == #[trigger] encode_utf8(state) && state != current ==> cache_ranges(
                    data,
                    current,
                ) == Err::<Seq<RangeView>, CacheErrorView>(
                    CacheErrorView::OutOfDate { current, cached: state },
                )
            &&& (forall|state: Seq<char>| written != #[trigger] encode_utf8(state))
                ==> cache_ranges(data, current) == Err::<Seq<RangeView>, CacheErrorView>(
                CacheErrorView::InvalidUtf8,
            )
        }),
{
    let data = seq![1u8] + (written + seq![0u8] + body);
    assert(data.drop_first() =~= written + seq![0u8] + body);
    crate::split::lemma_split_front(written, body, 0);
    crate::text::law_utf8(current, written);
    assert forall|state: Seq<char>|
        written == #[trigger] encode_utf8(state) && state != current implies cache_ranges(
        data,
        current,
    ) == Err::<Seq<RangeView>, CacheErrorView>(
        CacheErrorView::OutOfDate { current, cached: state },
    ) by {
        crate::text::law_utf8(state, written);
    }
    if forall|state: Seq<char>| written != #[trigger] encode_utf8(state) {
        if let Some(t) = crate::text::utf8_text(written) {
            assert(written == encode_utf8(t));
        }
    }
}

/// How the versions in a cache file are read, one after the other.
///
/// A text and a JSON blob, each with a NUL byte behind it, are a version and the
/// place of its blob, if the text is UTF-8 and a version. Whatever follows is
/// read in the same way. Otherwise the whole file is refused, with what is wrong
/// with that text.
pub proof fn law_next_version(text: Seq<u8>, blob: Seq<u8>, more: Seq<u8>, total: int)
    requires
        forall|i: int| 0 <= i < text.len() ==> text[i] != 0u8,
        forall|i: int| 0 <= i < blob.len() ==> blob[i] != 0u8,
    ensures
        body_ranges(Seq::empty(), total) == Ok::<Seq<RangeView>, CacheErrorView>(Seq::empty()),
        body_ranges(text + seq![0u8] + (blob + seq![0u8] + more), total)
            == match crate::text::utf8_text(text) {
            None => Err(CacheErrorView::InvalidUtf8),
            Some(t) => match crate::version::version_parse(t) {
                Err(message) => Err(CacheErrorView::InvalidVersion(message)),
                Ok(version) => match body_ranges(more, total) {
                    Err(e) => Err(e),
                    Ok(list) => {
                        let end = total - more.len() - 1;
                        Ok(seq![RangeView { version, start: end - blob.len(), end }] + list)
                    },
                },
            },
        },
{
    let after = blob + seq![0u8] + more;
    crate::split::lemma_split_front(text, after, 0);
    crate::split::lemma_split_front(blob, more, 0);
}

/// How the last version in a cache file is read if the file was cut: without a
/// JSON blob the file is refused, and a blob may lack the NUL byte behind it.
pub proof fn law_cut_file(text: Seq<u8>, blob: Seq<u8>, total: int)
    requires
        forall|i: int| 0 <= i < text.len() ==> text[i] != 0u8,
        forall|i: int| 0 <= i < blob.len() ==> blob[i] != 0u8,
        text.len() > 0,
        crate::text::utf8_text(text) is Some,
    ensures
        crate::version::version_parse(crate::text::utf8_text(text)->0) matches Ok(version) ==> {
            &&& body_ranges(text, total) == Err::<Seq<RangeView>, CacheErrorView>(
                CacheErrorView::MalformedFile,
            )
            &&& body_ranges(text + seq![0u8], total) == Err::<Seq<RangeView>, CacheErrorView>(
                CacheErrorView::MalformedFile,
            )
            &&& blob.len() > 0 ==> body_ranges(text + seq![0u8] + blob, total) == Ok::<
                Seq<RangeView>,
                CacheErrorView,
            >(seq![RangeView { version, start: total - blob.len(), end: total }])
        },
{
    let none = Seq::<u8>::empty();
    crate::split::lemma_last_piece(text, 0);
    crate::split::lemma_split_front(text, none, 0);
    assert(text + seq![0u8] =~= text + seq![0u8] + none);
    crate::split::lemma_split_front(text, blob, 0);
    crate::split::lemma_last_piece(blob, 0);
    assert(body_ranges(none, total) == Ok::<Seq<RangeView>, CacheErrorView>(Seq::empty()));
    if let Ok(version) = crate::version::version_parse(crate::text::utf8_text(text)->0) {
        let last = RangeView { version, start: total - blob.len(), end: total };
        assert(seq![last] + Seq::<RangeView>::empty() =~= seq![last]);
    }
}

/// An error has the value of its own kind, with the texts that it holds.
pub proof fn law_error_values(e: CacheError)
    ensures
        e is MalformedCache <==> e@ is MalformedCache,
        e is DifferentVersion <==> e@ is DifferentVersion,
        e is OutOfDate <==> e@ is OutOfDate,
        e is MalformedFile <==> e@ is MalformedFile,
        e is InvalidUtf8 <==> e@ is InvalidUtf8,
        e is InvalidVersion <==> e@ is InvalidVersion,
        e matches CacheError::OutOfDate { current, cached } ==> e@ == (CacheErrorView::OutOfDate {
            current: current@,
            cached: cached@,
        }),
        e matches CacheError::InvalidVersion(message) ==> e@ == CacheErrorView::InvalidVersion(
            message@,
        ),
{
}

/// The values of ranges, and of versions with their bytes, are those of each of
/// them, in the same order.
pub proof fn law_values_of_a_cache(
    data: Seq<u8>,
    list: Seq<CachedRange>,
    versions: Seq<(Version, &[u8])>,
)
    ensures
        ranges(list).len() == list.len(),
        forall|i: int|
            0 <= i < list.len() ==> {
                &&& (#[trigger] ranges(list)[i]).version == list[i].version@
                &&& ranges(list)[i].start == list[i].start
                &&& ranges(list)[i].end == list[i].end
            },
        cache_entries(versions).len() == versions.len(),
        forall|i: int|
            0 <= i < versions.len() ==> {
                &&& (#[trigger] cache_entries(versions)[i]).0 == versions[i].0@
                &&& cache_entries(versions)[i].1 == versions[i].1@
            },
        entries_at(data, ranges(list)).len() == list.len(),
        forall|i: int|
            0 <= i < list.len() ==> {
                &&& (#[trigger] entries_at(data, ranges(list))[i]).0 == list[i].version@
                &&& entries_at(data, ranges(list))[i].1 == data.subrange(
                    list[i].start as int,
                    list[i].end as int,
                )
            },
{
}

} // verus!
