//! Requests to move one package from one version to another.
//!
//! Such a request is what a registry is pinned to. It has the form
//! `<name>=<old version>-><new version>`.

use crate::text::same_text;
use crate::version::{Version, VersionReq};
use vstd::prelude::*;

verus! {

/// What is wrong with a request to move a package.
#[derive(Debug, PartialEq, Eq, Structural, Clone, Copy)]
pub enum PreciseError {
    /// The old version cannot be read.
    OldVersion,
    /// The new version is missing.
    NewVersion,
}

/// What stands behind `<name>=` if a registry is pinned to a request for the
/// package `name`.
pub open spec fn precise_request(precise: Option<Seq<char>>, name: Seq<char>) -> Option<Seq<char>> {
    match precise {
        Some(p) => if name.len() < p.len() && p.take(name.len() as int) == name
            && p[name.len() as int] == '=' {
            Some(p.skip(name.len() as int + 1))
        } else {
            None
        },
        None => None,
    }
}

/// Whether `->` stands at place `i`.
pub open spec fn is_arrow(text: Seq<char>, i: int) -> bool {
    0 <= i < text.len() - 1 && text[i] == '-' && text[i + 1] == '>'
}

/// Whether the first `->` stands at place `i`.
pub open spec fn is_first_arrow(text: Seq<char>, i: int) -> bool {
    is_arrow(text, i) && forall|j: int| 0 <= j < i ==> !is_arrow(text, j)
}

/// The part of a request in front of the first `->`, and the part behind it.
pub open spec fn request_parts(text: Seq<char>) -> (Seq<char>, Option<Seq<char>>) {
    if exists|i: int| is_first_arrow(text, i) {
        let i = choose|i: int| is_first_arrow(text, i);
        (text.take(i), Some(text.skip(i + 2)))
    } else {
        (text, None)
    }
}

/// What a request asks for, given whether its old version meets a requirement,
/// if it can be read, and its new version, if there is one.
pub open spec fn decided(is_met: Option<bool>, target: Option<Seq<char>>) -> Result<
    Option<Seq<char>>,
    PreciseError,
> {
    match is_met {
        None => Err(PreciseError::OldVersion),
        Some(false) => Ok(None),
        Some(true) => match target {
            Some(text) => Ok(Some(text)),
            None => Err(PreciseError::NewVersion),
        },
    }
}

/// The text of the only version that may be offered for a requirement on the
/// package `name`; nothing if every version may.
///
/// A request matters to a requirement that lets its old version through.
pub open spec fn precise_target(
    precise: Option<Seq<char>>,
    name: Seq<char>,
    req: Option<Seq<char>>,
) -> Result<Option<Seq<char>>, PreciseError> {
    match precise_request(precise, name) {
        None => Ok(None),
        Some(text) => {
            let (from, to) = request_parts(text);
            decided(
                match crate::version::version_parse(from) {
                    Ok(version) => Some(crate::version::req_matches(req, version)),
                    Err(_) => None,
                },
                to,
            )
        },
    }
}

/// The value of what was read.
pub open spec fn target_of(r: Result<Option<String>, PreciseError>) -> Result<
    Option<Seq<char>>,
    PreciseError,
> {
    match r {
        Ok(Some(text)) => Ok(Some(text@)),
        Ok(None) => Ok(None),
        Err(e) => Err(e),
    }
}

/// The characters of a text.
fn characters(text: &str) -> (r: Vec<char>)
    ensures
        r@ == text@,
{
    let mut out: Vec<char> = Vec::new();
    for c in it: text.chars()
        invariant
            it.seq() == text@,
            out@ == text@.take(it.index() as int),
    {
        out.push(c);
    }
    out
}

/// The place of the first `->`.
fn find_arrow(text: &str) -> (r: Option<usize>)
    ensures
        match r {
            Some(i) => is_first_arrow(text@, i as int),
            None => forall|i: int| !is_arrow(text@, i),
        },
{
    let chars = characters(text);
    let mut i: usize = 0;
    while i < chars.len()
        invariant
            i <= chars@.len(),
            chars@ == text@,
            forall|j: int| 0 <= j < i ==> !is_arrow(text@, j),
        decreases chars@.len() - i,
    {
        if i + 1 < chars.len() && chars[i] == '-' && chars[i + 1] == '>' {
            return Some(i);
        }
        i += 1;
    }
    None
}

/// Reads what a registry is pinned to, for a requirement on the package `name`.
pub fn read_precise(precise: Option<&str>, name: &str, req: &VersionReq) -> (r: Result<
    Option<String>,
    PreciseError,
>)
    ensures
        target_of(r) == precise_target(crate::version::text_of(precise), name@, req@),
{
    let precise = match precise {
        Some(p) => p,
        None => {
            return Ok(None);
        },
    };
    let len: usize = precise.unicode_len();
    let n: usize = name.unicode_len();
    if n >= len || !same_text(precise.substring_char(0, n), name) || precise.get_char(n) != '=' {
        return Ok(None);
    }
    let text = precise.substring_char(n + 1, len);
    let arrow = find_arrow(text);
    let from = match arrow {
        Some(i) => text.substring_char(0, i),
        None => text,
    };
    let is_met = match Version::parse(from) {
        Ok(version) => Some(req.matches(&version)),
        Err(_) => None,
    };
    let target = match arrow {
        Some(i) => Some(text.substring_char(i + 2, text.unicode_len())),
        None => None,
    };
    decide_target(is_met, target)
}

/// Decides what a request asks for, given whether its old version meets the
/// requirement, if it can be read, and its new version, if there is one.
pub fn decide_target(is_met: Option<bool>, target: Option<&str>) -> (r: Result<
    Option<String>,
    PreciseError,
>)
    ensures
        target_of(r) == decided(is_met, crate::version::text_of(target)),
{
    match is_met {
        None => Err(PreciseError::OldVersion),
        Some(false) => Ok(None),
        Some(true) => match target {
            Some(target) => Ok(Some(target.to_owned())),
            None => Err(PreciseError::NewVersion),
        },
    }
}

/// A request of the right form, with an old version that can be read, asks for
/// the new version and for no other where the requirement lets the old version
/// through, and for nothing elsewhere.
pub proof fn law_precise_request(
    name: Seq<char>,
    from: Seq<char>,
    to: Seq<char>,
    req: Option<Seq<char>>,
)
    requires
        crate::version::version_parse(from) is Ok,
    ensures
        precise_target(Some(name + seq!['='] + (from + seq!['-', '>'] + to)), name, req) == Ok::<
            Option<Seq<char>>,
            PreciseError,
        >(
            if crate::version::req_matches(req, crate::version::version_parse(from)->Ok_0) {
                Some(to)
            } else {
                None
            },
        ),
{
    let text = from + seq!['-', '>'] + to;
    let whole = name + seq!['='] + text;
    let n = from.len() as int;
    assert(whole.take(name.len() as int) =~= name);
    assert(whole.skip(name.len() as int + 1) =~= text);
    assert(is_first_arrow(text, n));
    assert(text.take(n) =~= from);
    assert(text.skip(n + 2) =~= to);
}

/// A request for one package does not matter to another, where no equals sign
/// stands in their names.
pub proof fn law_precise_leaves_others(
    name: Seq<char>,
    rest: Seq<char>,
    other: Seq<char>,
    req: Option<Seq<char>>,
)
    requires
        name != other,
        !name.contains('='),
        !other.contains('='),
    ensures
        precise_target(Some(name + seq!['='] + rest), other, req) == Ok::<
            Option<Seq<char>>,
            PreciseError,
        >(None),
{
    let p = name + seq!['='] + rest;
    if precise_request(Some(p), other) is Some {
        let n = other.len() as int;
        if n > name.len() {
            assert(p.take(n)[name.len() as int] == '=');
        } else if n == name.len() {
            assert(p.take(n) =~= name);
        }
    }
}

/// What does not begin with the name of a package and an equals sign does not
/// matter to that package, and neither does the want of a request.
pub proof fn law_precise_of_another_name(p: Seq<char>, name: Seq<char>, req: Option<Seq<char>>)
    requires
        !(name + seq!['=']).is_prefix_of(p),
    ensures
        precise_target(None, name, req) == Ok::<Option<Seq<char>>, PreciseError>(None),
        precise_target(Some(p), name, req) == Ok::<Option<Seq<char>>, PreciseError>(None),
{
    if precise_request(Some(p), name) is Some {
        let n = name.len() as int;
        assert(p.take(n + 1) =~= p.take(n).push(p[n]));
        assert(p.take(n + 1) =~= name + seq!['=']);
    }
}

/// A request whose old version cannot be read is an error, and one that lacks
/// the arrow is an error for the requirements that let its old version through.
pub proof fn law_malformed_request(
    name: Seq<char>,
    from: Seq<char>,
    to: Seq<char>,
    req: Option<Seq<char>>,
)
    requires
        forall|i: int, j: int|
            0 <= i < from.len() && j == i + 1 && j < from.len() ==> !(#[trigger] from[i] == '-'
                && #[trigger] from[j] == '>'),
    ensures
        precise_target(Some(name + seq!['='] + from), name, req)
            == match crate::version::version_parse(from) {
            Err(_) => Err(PreciseError::OldVersion),
            Ok(old) => if crate::version::req_matches(req, old) {
                Err(PreciseError::NewVersion)
            } else {
                Ok(None::<Seq<char>>)
            },
        },
        crate::version::version_parse(from) is Err ==> precise_target(
            Some(name + seq!['='] + (from + seq!['-', '>'] + to)),
            name,
            req,
        ) == Err::<Option<Seq<char>>, PreciseError>(PreciseError::OldVersion),
{
    let short = name + seq!['='] + from;
    assert(short.take(name.len() as int) =~= name);
    assert(short.skip(name.len() as int + 1) =~= from);
    assert forall|i: int| !is_arrow(from, i) by {
        if is_arrow(from, i) {
            assert(from[i] == '-' && from[i + 1] == '>');
        }
    }
    let text = from + seq!['-', '>'] + to;
    let whole = name + seq!['='] + text;
    let n = from.len() as int;
    assert(whole.take(name.len() as int) =~= name);
    assert(whole.skip(name.len() as int + 1) =~= text);
    assert forall|j: int| 0 <= j < n implies !is_arrow(text, j) by {
        assert(!is_arrow(from, j));
        if is_arrow(text, j) {
            assert(text[j] == from[j]);
            if j + 1 < n {
                assert(text[j + 1] == from[j + 1]);
            } else {
                assert(text[j + 1] == '-');
            }
        }
    }
    assert(is_arrow(text, n));
    assert(is_first_arrow(text, n));
    let i = choose|i: int| is_first_arrow(text, i);
    assert(i == n) by {
        if i < n {
            assert(!is_arrow(text, i));
        }
        if n < i {
            assert(!is_arrow(text, n));
        }
    }
    assert(text.take(n) =~= from);
}

/// What was read, or the error, is what its value says.
pub proof fn law_target_of(r: Result<Option<String>, PreciseError>)
    ensures
        target_of(r) is Err <==> r is Err,
        r matches Err(e) ==> target_of(r) == Err::<Option<Seq<char>>, PreciseError>(e),
        r matches Ok(None) ==> target_of(r) == Ok::<Option<Seq<char>>, PreciseError>(None),
        r matches Ok(Some(text)) ==> target_of(r) == Ok::<Option<Seq<char>>, PreciseError>(
            Some(text@),
        ),
{
}

} // verus!
