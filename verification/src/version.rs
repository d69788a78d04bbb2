//! Package versions and version requirements.
//!
//! Both are held as plain values. Reading them, writing them and matching one
//! against the other is the work of the `semver` crate.

use vstd::prelude::*;

verus! {

/// One dot-separated part of a pre-release or of build metadata.
#[derive(Debug)]
pub enum Identifier {
    /// A part made of digits only.
    Numeric(u64),
    /// Any other part.
    AlphaNumeric(String),
}

/// The value of an [`Identifier`].
pub enum IdentifierView {
    Numeric(u64),
    AlphaNumeric(Seq<char>),
}

impl View for Identifier {
    type V = IdentifierView;

    open spec fn view(&self) -> IdentifierView {
        match self {
            Identifier::Numeric(n) => IdentifierView::Numeric(*n),
            Identifier::AlphaNumeric(s) => IdentifierView::AlphaNumeric(s@),
        }
    }
}

impl Clone for Identifier {
    fn clone(&self) -> (r: Self)
        ensures
            r@ == self@,
    {
        match self {
            Identifier::Numeric(n) => Identifier::Numeric(*n),
            Identifier::AlphaNumeric(s) => Identifier::AlphaNumeric(s.clone()),
        }
    }
}

impl Identifier {
    /// Whether both identifiers have the same value.
    pub fn same(&self, other: &Identifier) -> (r: bool)
        ensures
            r == (self@ == other@),
    {
        match (self, other) {
            (Identifier::Numeric(a), Identifier::Numeric(b)) => *a == *b,
            (Identifier::AlphaNumeric(a), Identifier::AlphaNumeric(b)) => *a == *b,
            _ => false,
        }
    }
}

/// The values of a list of identifiers.
pub open spec fn identifiers(ids: Seq<Identifier>) -> Seq<IdentifierView> {
    Seq::new(ids.len(), |i: int| ids[i]@)
}

/// A semantic version: three numbers, a pre-release and build metadata.
///
/// Every version was read from a text, so its own text can be read again.
#[derive(Debug)]
pub struct Version {
    major: u64,
    minor: u64,
    patch: u64,
    pre: Vec<Identifier>,
    build: Vec<Identifier>,
}

/// The value of a [`Version`].
pub struct VersionView {
    pub major: u64,
    pub minor: u64,
    pub patch: u64,
    pub pre: Seq<IdentifierView>,
    pub build: Seq<IdentifierView>,
}

impl VersionView {
    /// What tells versions apart: everything but the build metadata.
    pub open spec fn key(self) -> (u64, u64, u64, Seq<IdentifierView>) {
        (self.major, self.minor, self.patch, self.pre)
    }

    /// Whether the text of this version is clean and is read back as this very
    /// version.
    pub open spec fn is_readable(self) -> bool {
        &&& version_parse(version_text(self)) == Ok::<VersionView, Seq<char>>(self)
        &&& is_clean(version_text(self))
    }
}

impl View for Version {
    type V = VersionView;

    closed spec fn view(&self) -> VersionView {
        VersionView {
            major: self.major,
            minor: self.minor,
            patch: self.patch,
            pre: identifiers(self.pre@),
            build: identifiers(self.build@),
        }
    }
}

/// Whether a text is not empty and made of ASCII characters other than NUL.
pub open spec fn is_clean(text: Seq<char>) -> bool {
    &&& text.len() > 0
    &&& forall|i: int| 0 <= i < text.len() ==> '\0' < #[trigger] text[i] <= '\u{7f}'
}

/// What `semver::Version::parse` makes of a text: a version, or the message
/// of its error.
pub uninterp spec fn version_reading(text: Seq<char>) -> Result<VersionView, Seq<char>>;

/// The version that a text stands for, or the message of the reader. No version
/// is written with a `>`.
pub open spec fn version_parse(text: Seq<char>) -> Result<VersionView, Seq<char>> {
    if text.contains('>') {
        Err(version_reading(text)->Err_0)
    } else {
        version_reading(text)
    }
}

/// A number in decimal digits.
pub open spec fn decimal(n: nat) -> Seq<char>
    decreases n,
{
    let last = (('0' as u32) + n % 10) as char;
    if n < 10 {
        seq![last]
    } else {
        decimal(n / 10).push(last)
    }
}

/// The text of an identifier.
pub open spec fn identifier_text(id: IdentifierView) -> Seq<char> {
    match id {
        IdentifierView::Numeric(n) => decimal(n as nat),
        IdentifierView::AlphaNumeric(s) => s,
    }
}

/// A list of identifiers with a character in front and dots in between; nothing
/// for an empty list.
pub open spec fn listed_text(front: char, ids: Seq<IdentifierView>) -> Seq<char>
    decreases ids.len(),
{
    if ids.len() == 0 {
        Seq::empty()
    } else if ids.len() == 1 {
        seq![front] + identifier_text(ids[0])
    } else {
        listed_text(front, ids.drop_last()) + seq!['.'] + identifier_text(ids.last())
    }
}

/// The text in which a version is written: `major.minor.patch`, the pre-release
/// behind a hyphen and the build metadata behind a plus sign.
pub open spec fn version_text(version: VersionView) -> Seq<char> {
    decimal(version.major as nat) + seq!['.'] + decimal(version.minor as nat) + seq!['.'] + decimal(
        version.patch as nat,
    ) + listed_text('-', version.pre) + listed_text('+', version.build)
}

/// Calls `semver::Version::parse` and takes the version, or the text of the
/// error, apart into plain values.
///
/// Claimed: the outcome depends on the text alone, no text with a `>` is read,
/// and the text of a version that was read is clean and is read as that version.
#[verifier::external_body]
fn parse_version(text: &str) -> (r: Result<Version, String>)
    ensures
        match r {
            Ok(v) => version_reading(text@) == Ok::<VersionView, Seq<char>>(v@),
            Err(e) => version_reading(text@) == Err::<VersionView, Seq<char>>(e@),
        },
        r is Ok ==> !text@.contains('>'),
        r matches Ok(v) ==> v@.is_readable(),
{
    let own = |id| match id {
        semver::Identifier::Numeric(n) => Identifier::Numeric(n),
        semver::Identifier::AlphaNumeric(s) => Identifier::AlphaNumeric(s),
    };
    match semver::Version::parse(text) {
        Ok(v) => Ok(Version {
            major: v.major,
            minor: v.minor,
            patch: v.patch,
            pre: v.pre.into_iter().map(own).collect(),
            build: v.build.into_iter().map(own).collect(),
        }),
        Err(e) => Err(e.to_string()),
    }
}

/// Calls `to_string` on a `semver::Version` with the same parts.
///
/// Claimed: the text is the three numbers with dots in between, then the parts
/// of the pre-release, dotted, behind a hyphen, and those of the build metadata
/// behind a plus sign, each where there are any.
#[verifier::external_body]
fn write_version(version: &Version) -> (r: String)
    ensures
        r@ == version_text(version@),
{
    let theirs = |id: &Identifier| match id {
        Identifier::Numeric(n) => semver::Identifier::Numeric(*n),
        Identifier::AlphaNumeric(s) => semver::Identifier::AlphaNumeric(s.clone()),
    };
    semver::Version {
        major: version.major,
        minor: version.minor,
        patch: version.patch,
        pre: version.pre.iter().map(theirs).collect(),
        build: version.build.iter().map(theirs).collect(),
    }.to_string()
}

impl Version {
    #[verifier::type_invariant]
    closed spec fn inv(self) -> bool {
        self@.is_readable()
    }

    /// Reads a version. The error is the message of the reader.
    pub fn parse(text: &str) -> (r: Result<Version, String>)
        ensures
            match r {
                Ok(v) => {
                    &&& version_parse(text@) == Ok::<VersionView, Seq<char>>(v@)
                    &&& v@.is_readable()
                },
                Err(e) => version_parse(text@) == Err::<VersionView, Seq<char>>(e@),
            },
    {
        parse_version(text)
    }

    /// The text of this version. It is read back as this version.
    pub fn to_text(&self) -> (r: String)
        ensures
            r@ == version_text(self@),
            self@.is_readable(),
    {
        proof {
            use_type_invariant(self);
        }
        write_version(self)
    }

    /// Whether two versions are the same, build metadata aside.
    pub fn same(&self, other: &Version) -> (r: bool)
        ensures
            r == (self@.key() == other@.key()),
    {
        if self.major != other.major || self.minor != other.minor || self.patch != other.patch {
            return false;
        }
        let n = self.pre.len();
        if n != other.pre.len() {
            assert(self@.pre.len() != other@.pre.len());
            return false;
        }
        let mut i: usize = 0;
        while i < n
            invariant
                i <= n,
                n == self.pre@.len(),
                n == other.pre@.len(),
                forall|j: int| 0 <= j < i ==> self@.pre[j] == #[trigger] other@.pre[j],
            decreases n - i,
        {
            if !self.pre[i].same(&other.pre[i]) {
                assert(self@.pre[i as int] != other@.pre[i as int]);
                return false;
            }
            i += 1;
        }
        assert(self@.pre =~= other@.pre);
        true
    }
}

fn clone_identifiers(ids: &Vec<Identifier>) -> (r: Vec<Identifier>)
    ensures
        identifiers(r@) == identifiers(ids@),
{
    let mut out: Vec<Identifier> = Vec::new();
    let mut i: usize = 0;
    while i < ids.len()
        invariant
            i <= ids.len(),
            out@.len() == i,
            forall|j: int| 0 <= j < i ==> (#[trigger] out@[j])@ == ids@[j]@,
        decreases ids.len() - i,
    {
        out.push(ids[i].clone());
        i += 1;
    }
    out
}

impl Clone for Version {
    fn clone(&self) -> (r: Self)
        ensures
            r@ == self@,
            r@.is_readable(),
    {
        proof {
            use_type_invariant(self);
        }
        Version {
            major: self.major,
            minor: self.minor,
            patch: self.patch,
            pre: clone_identifiers(&self.pre),
            build: clone_identifiers(&self.build),
        }
    }
}

/// What `semver::VersionReq::parse` says of a text: that it is a requirement,
/// or the message of its error.
pub uninterp spec fn requirement_parse(text: Seq<char>) -> Result<(), Seq<char>>;

/// Whether the requirement that `semver` reads from a text lets a version
/// through.
pub uninterp spec fn requirement_matches(text: Seq<char>, version: VersionView) -> bool;

/// Whether `semver` takes two requirements for equal. A requirement is given
/// by its text, or by nothing where it is the one without any constraint.
pub uninterp spec fn requirements_equal(a: Option<Seq<char>>, b: Option<Seq<char>>) -> bool;

/// The text of the requirement that only one version meets: an equals sign and
/// the version without its build metadata.
pub open spec fn exact_text(version: VersionView) -> Seq<char> {
    seq!['='] + version_text(VersionView { build: Seq::empty(), ..version })
}

/// Whether there is a requirement with this text, or no constraint at all.
pub open spec fn is_requirement(text: Option<Seq<char>>) -> bool {
    text matches Some(t) ==> requirement_parse(t) is Ok
}

/// Calls `semver::VersionReq::parse` and keeps whether it succeeded, or the
/// text of the error.
///
/// Claimed: the outcome depends on the text alone.
#[verifier::external_body]
fn check_requirement(text: &str) -> (r: Result<(), String>)
    ensures
        match r {
            Ok(_) => requirement_parse(text@) is Ok,
            Err(e) => requirement_parse(text@) == Err::<(), Seq<char>>(e@),
        },
{
    match semver::VersionReq::parse(text) {
        Ok(_) => Ok(()),
        Err(e) => Err(e.to_string()),
    }
}

/// Calls `semver::VersionReq::matches` on the requirement that the text stands
/// for.
///
/// Claimed: the answer depends on the text and on the parts of the version
/// alone.
#[verifier::external_body]
fn match_requirement(text: &str, version: &Version) -> (r: bool)
    requires
        requirement_parse(text@) is Ok,
    ensures
        r == requirement_matches(text@, version@),
{
    let theirs = |id: &Identifier| match id {
        Identifier::Numeric(n) => semver::Identifier::Numeric(*n),
        Identifier::AlphaNumeric(s) => semver::Identifier::AlphaNumeric(s.clone()),
    };
    semver::VersionReq::parse(text).unwrap().matches(&semver::Version {
        major: version.major,
        minor: version.minor,
        patch: version.patch,
        pre: version.pre.iter().map(theirs).collect(),
        build: version.build.iter().map(theirs).collect(),
    })
}

/// Calls `semver::VersionReq::exact` and hands out the text of its result.
///
/// Claimed, of a version that can be read back: that text is an equals sign and
/// the text of the version without its build metadata, it is a requirement, and
/// it lets through the versions with the key of this one and no others.
#[verifier::external_body]
fn exact_requirement(version: &Version) -> (r: String)
    requires
        version@.is_readable(),
    ensures
        r@ == exact_text(version@),
        requirement_parse(r@) is Ok,
        forall|v: VersionView| #[trigger]
            requirement_matches(r@, v) == (v.key() == version@.key()),
{
    let theirs = |id: &Identifier| match id {
        Identifier::Numeric(n) => semver::Identifier::Numeric(*n),
        Identifier::AlphaNumeric(s) => semver::Identifier::AlphaNumeric(s.clone()),
    };
    semver::VersionReq::exact(&semver::Version {
        major: version.major,
        minor: version.minor,
        patch: version.patch,
        pre: version.pre.iter().map(theirs).collect(),
        build: version.build.iter().map(theirs).collect(),
    }).to_string()
}

/// Compares two `semver::VersionReq` with `==`: those that the texts stand for
/// or, where there is no text, the one of `semver::VersionReq::any`.
///
/// Claimed: the answer depends on the texts alone, a requirement is equal to
/// itself, it does not matter which one comes first, and equal ones are equal to
/// the same requirements.
#[verifier::external_body]
fn compare_requirements(a: Option<&str>, b: Option<&str>) -> (r: bool)
    requires
        a matches Some(t) ==> requirement_parse(t@) is Ok,
        b matches Some(t) ==> requirement_parse(t@) is Ok,
    ensures
        r == requirements_equal(text_of(a), text_of(b)),
        text_of(a) == text_of(b) ==> r,
        r == requirements_equal(text_of(b), text_of(a)),
        r ==> forall|c: Option<Seq<char>>|
            is_requirement(c) ==> (#[trigger] requirements_equal(text_of(a), c)
                == requirements_equal(text_of(b), c)),
{
    let theirs = |text: Option<&str>| match text {
        Some(t) => semver::VersionReq::parse(t).unwrap(),
        None => semver::VersionReq::any(),
    };
    theirs(a) == theirs(b)
}

/// The value of an optional text.
pub open spec fn text_of(text: Option<&str>) -> Option<Seq<char>> {
    match text {
        Some(t) => Some(t@),
        None => None,
    }
}

/// A requirement on versions.
#[derive(Debug)]
pub struct VersionReq {
    text: Option<String>,
}

impl View for VersionReq {
    type V = Option<Seq<char>>;

    /// The text of the requirement, or nothing where it has no constraint.
    closed spec fn view(&self) -> Option<Seq<char>> {
        match self.text {
            Some(t) => Some(t@),
            None => None,
        }
    }
}

/// Whether a requirement lets a version through.
pub open spec fn req_matches(req: Option<Seq<char>>, version: VersionView) -> bool {
    match req {
        Some(text) => requirement_matches(text, version),
        None => true,
    }
}

/// Whether a requirement lets through one version, whatever its build
/// metadata.
pub open spec fn is_exact(req: Option<Seq<char>>, version: VersionView) -> bool {
    forall|v: VersionView| #[trigger] req_matches(req, v) == (v.key() == version.key())
}

/// Whether two requirements are made of the same constraints, as those with
/// the same text are.
pub open spec fn is_same_req(a: Option<Seq<char>>, b: Option<Seq<char>>) -> bool {
    a == b || requirements_equal(a, b)
}

impl VersionReq {
    #[verifier::type_invariant]
    closed spec fn inv(self) -> bool {
        self.text matches Some(t) ==> requirement_parse(t@) is Ok
    }

    /// The requirement that every version meets.
    pub fn any() -> (r: VersionReq)
        ensures
            r@ == None::<Seq<char>>,
    {
        VersionReq { text: None }
    }

    /// Reads a requirement. The error is the message of the reader.
    pub fn parse(text: &str) -> (r: Result<VersionReq, String>)
        ensures
            match r {
                Ok(req) => requirement_parse(text@) is Ok && req@ == Some(text@),
                Err(e) => requirement_parse(text@) == Err::<(), Seq<char>>(e@),
            },
    {
        match check_requirement(text) {
            Ok(_) => Ok(VersionReq { text: Some(text.to_owned()) }),
            Err(e) => Err(e),
        }
    }

    /// The requirement that one version meets, whatever its build metadata.
    pub fn exact(version: &Version) -> (r: VersionReq)
        ensures
            r@ == Some(exact_text(version@)),
            is_exact(r@, version@),
    {
        proof {
            use_type_invariant(version);
        }
        VersionReq { text: Some(exact_requirement(version)) }
    }

    /// Whether this requirement lets `version` through.
    pub fn matches(&self, version: &Version) -> (r: bool)
        ensures
            r == req_matches(self@, version@),
    {
        proof {
            use_type_invariant(self);
        }
        match &self.text {
            Some(text) => match_requirement(text.as_str(), version),
            None => true,
        }
    }

    /// Whether two requirements are made of the same constraints.
    pub fn same(&self, other: &VersionReq) -> (r: bool)
        ensures
            r == is_same_req(self@, other@),
            r == is_same_req(other@, self@),
            r ==> forall|c: Option<Seq<char>>|
                is_requirement(c) && #[trigger] is_same_req(other@, c) ==> is_same_req(self@, c),
    {
        proof {
            use_type_invariant(self);
            use_type_invariant(other);
        }
        let a = match &self.text {
            Some(text) => Some(text.as_str()),
            None => None,
        };
        let b = match &other.text {
            Some(text) => Some(text.as_str()),
            None => None,
        };
        compare_requirements(a, b)
    }
}

impl Clone for VersionReq {
    fn clone(&self) -> (r: Self)
        ensures
            r@ == self@,
    {
        proof {
            use_type_invariant(self);
        }
        match &self.text {
            Some(text) => VersionReq { text: Some(text.clone()) },
            None => VersionReq { text: None },
        }
    }
}

/// Versions are told apart by their three numbers and their pre-release, and by
/// nothing else.
pub proof fn law_versions_are_told_apart(a: VersionView, b: VersionView)
    ensures
        a.key() == b.key() <==> {
            &&& a.major == b.major
            &&& a.minor == b.minor
            &&& a.patch == b.patch
            &&& a.pre == b.pre
        },
{
}

/// Without a constraint every version is let through; with one, those that
/// `semver` lets through.
pub proof fn law_requirements(text: Seq<char>, version: VersionView)
    ensures
        req_matches(None, version),
        req_matches(Some(text), version) == requirement_matches(text, version),
{
}

/// A requirement that asks for one version lets through that version, whatever
/// its build metadata, and no other.
pub proof fn law_exact_requirement(req: Option<Seq<char>>, asked: VersionView, given: VersionView)
    requires
        is_exact(req, asked),
    ensures
        req_matches(req, given) <==> {
            &&& given.major == asked.major
            &&& given.minor == asked.minor
            &&& given.patch == asked.patch
            &&& given.pre == asked.pre
        },
{
}

/// Requirements with the same text are the same, and so are those that `semver`
/// takes for equal; there are no others.
pub proof fn law_same_requirements(a: Option<Seq<char>>, b: Option<Seq<char>>)
    ensures
        is_same_req(a, a),
        is_same_req(a, b) <==> a == b || requirements_equal(a, b),
{
}

/// A text that holds a `>` is no version, and of any other it is `semver` that
/// says what it is.
pub proof fn law_version_texts(text: Seq<char>)
    ensures
        text.contains('>') ==> version_parse(text) is Err,
        !text.contains('>') ==> version_parse(text) == version_reading(text),
{
}

/// How a version is written: its three numbers with dots in between, and then,
/// for each part that is added to the pre-release or, behind that, to the build
/// metadata, a hyphen or a plus sign if it is the first one and a dot otherwise,
/// and the text of the part.
pub proof fn law_version_text(version: VersionView, id: IdentifierView)
    ensures
        version.pre.len() == 0 && version.build.len() == 0 ==> version_text(version) == decimal(
            version.major as nat,
        ) + seq!['.'] + decimal(version.minor as nat) + seq!['.'] + decimal(version.patch as nat),
        version.build.len() == 0 ==> version_text(
            VersionView { pre: version.pre.push(id), ..version },
        ) == version_text(version) + seq![
            if version.pre.len() == 0 {
                '-'
            } else {
                '.'
            },
        ] + identifier_text(id),
        version_text(VersionView { build: version.build.push(id), ..version }) == version_text(
            version,
        ) + seq![
            if version.build.len() == 0 {
                '+'
            } else {
                '.'
            },
        ] + identifier_text(id),
{
    lemma_listed_push('-', version.pre, id);
    lemma_listed_push('+', version.build, id);
    let numbers = decimal(version.major as nat) + seq!['.'] + decimal(version.minor as nat) + seq![
        '.',
    ] + decimal(version.patch as nat);
    if version.build.len() == 0 {
        if version.pre.len() == 0 {
            assert(version_text(version) =~= numbers);
        }
        assert(version_text(VersionView { pre: version.pre.push(id), ..version }) =~= version_text(
            version,
        ) + seq![
            if version.pre.len() == 0 {
                '-'
            } else {
                '.'
            },
        ] + identifier_text(id));
    }
    assert(version_text(VersionView { build: version.build.push(id), ..version })
        =~= version_text(version) + seq![
        if version.build.len() == 0 {
            '+'
        } else {
            '.'
        },
    ] + identifier_text(id));
}

/// One more identifier in a list.
proof fn lemma_listed_push(front: char, ids: Seq<IdentifierView>, id: IdentifierView)
    ensures
        listed_text(front, ids.push(id)) == listed_text(front, ids) + seq![
            if ids.len() == 0 {
                front
            } else {
                '.'
            },
        ] + identifier_text(id),
{
    assert(ids.push(id).drop_last() =~= ids);
    assert(listed_text(front, ids.push(id)) =~= listed_text(front, ids) + seq![
        if ids.len() == 0 {
            front
        } else {
            '.'
        },
    ] + identifier_text(id));
}

/// How a number is written: one digit if it is below ten, and otherwise the
/// digit of what is left over by ten behind the text of the rest.
pub proof fn law_decimal(n: nat, digit: nat)
    requires
        n > 0,
        digit < 10,
    ensures
        decimal(digit) == seq![(('0' as u32) + digit) as char],
        decimal(10 * n + digit) == decimal(n) + decimal(digit),
{
    assert((10 * n + digit) / 10 == n && (10 * n + digit) % 10 == digit) by (nonlinear_arith)
        requires
            digit < 10,
    ;
    assert(decimal(10 * n + digit) =~= decimal(n) + decimal(digit));
}

/// A version that can be read back is read from its own text, which is not empty
/// and made of ASCII characters other than NUL.
pub proof fn law_readable(version: VersionView)
    ensures
        version.is_readable() <==> {
            &&& version_parse(version_text(version)) == Ok::<VersionView, Seq<char>>(version)
            &&& version_text(version).len() > 0
            &&& forall|i: int|
                0 <= i < version_text(version).len() ==> '\0' < #[trigger] version_text(version)[i]
                    <= '\u{7f}'
        },
{
}

} // verus!
