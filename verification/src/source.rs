//! Sources of log lines, content resolution and grouping.
//!
//! A `Content` is one logical unit of material (a file, a directory, a CI
//! build); expanding it yields `Source` values, each a location string plus
//! the length of a base prefix to strip when computing the source's
//! *relative identity*. Relative identities, normalized into an `IndexName`,
//! are the keys under which sources from unrelated runs are pooled.

use vstd::prelude::*;
use crate::{Error, Input};
use crate::urls::{parse_url, parsed_url_of};

verus! {

// ---------------------------------------------------------------------------
// Abstract values
// ---------------------------------------------------------------------------

/// Abstract value of a `Source`: the stripped prefix length (in characters)
/// and the full location string.
pub enum SourceV {
    Local(nat, Seq<char>),
    Remote(nat, Seq<char>),
}

pub open spec fn src_prefix(s: SourceV) -> nat {
    match s {
        SourceV::Local(p, _) => p,
        SourceV::Remote(p, _) => p,
    }
}

pub open spec fn src_path(s: SourceV) -> Seq<char> {
    match s {
        SourceV::Local(_, t) => t,
        SourceV::Remote(_, t) => t,
    }
}

/// Well-formedness of a source: the prefix to strip never exceeds the
/// location's length.
pub open spec fn src_wf(s: SourceV) -> bool {
    src_prefix(s) <= src_path(s).len()
}

/// The relative identity of a source: its location past the base prefix.
pub open spec fn src_rel(s: SourceV) -> Seq<char> {
    src_path(s).skip(src_prefix(s) as int)
}

pub open spec fn is_digit(c: char) -> bool {
    48 <= c as u32 && c as u32 <= 57
}

/// The grouping key of a relative identity: digits are masked out, so
/// numbered or rotated variants of the same kind of file share one key.
pub open spec fn index_name_of(rel: Seq<char>) -> Seq<char> {
    rel.filter(|c: char| !is_digit(c))
}

pub open spec fn src_name(s: SourceV) -> Seq<char> {
    index_name_of(src_rel(s))
}

pub open spec fn ext_ico() -> Seq<char> {
    seq!['.', 'i', 'c', 'o']
}

pub open spec fn ext_png() -> Seq<char> {
    seq!['.', 'p', 'n', 'g']
}

pub open spec fn ext_clf() -> Seq<char> {
    seq!['.', 'c', 'l', 'f']
}

pub open spec fn ext_sqlite() -> Seq<char> {
    seq!['.', 's', 'q', 'l', 'i', 't', 'e']
}

/// A source is kept only when its relative identity does not name a known
/// non-text payload (images, cached cookie files, embedded databases).
pub open spec fn src_ok(s: SourceV) -> bool {
    &&& !ext_ico().is_suffix_of(src_rel(s))
    &&& !ext_png().is_suffix_of(src_rel(s))
    &&& !ext_clf().is_suffix_of(src_rel(s))
    &&& !ext_sqlite().is_suffix_of(src_rel(s))
}

/// Abstract value of a CI build.
pub struct BuildV {
    pub uuid: Seq<char>,
    pub job_name: Seq<char>,
    pub log_url: Seq<char>,
}

/// Abstract value of a `Content`.
pub enum ContentV {
    File(SourceV),
    Directory(SourceV),
    Zuul(BuildV),
}

pub open spec fn cnt_wf(c: ContentV) -> bool {
    match c {
        ContentV::File(s) => src_wf(s),
        ContentV::Directory(s) => src_wf(s),
        ContentV::Zuul(_) => true,
    }
}

// ---------------------------------------------------------------------------
// Exec types
// ---------------------------------------------------------------------------

/// The location of log lines, and the length of the base prefix that is
/// stripped when computing the relative identity.
#[derive(Debug, Clone, PartialEq, Eq, Hash)]
pub enum Source {
    Local(usize, String),
    Remote(usize, String),
}

impl View for Source {
    type V = SourceV;

    open spec fn view(&self) -> SourceV {
        match self {
            Source::Local(p, t) => SourceV::Local(*p as nat, t@),
            Source::Remote(p, t) => SourceV::Remote(*p as nat, t@),
        }
    }
}

impl DeepView for Source {
    type V = SourceV;

    open spec fn deep_view(&self) -> SourceV {
        self.view()
    }
}

/// A CI build whose artifacts and sibling builds can serve as content.
#[derive(Debug, Clone, PartialEq, Eq, Hash)]
pub struct Build {
    pub uuid: String,
    pub job_name: String,
    pub log_url: String,
}

impl View for Build {
    type V = BuildV;

    open spec fn view(&self) -> BuildV {
        BuildV { uuid: self.uuid@, job_name: self.job_name@, log_url: self.log_url@ }
    }
}

impl DeepView for Build {
    type V = BuildV;

    open spec fn deep_view(&self) -> BuildV {
        self.view()
    }
}

/// One logical unit of content, local or remote, single-file or recursive,
/// or a CI build's artifact set.
#[derive(Debug, Clone, PartialEq, Eq, Hash)]
pub enum Content {
    File(Source),
    Directory(Source),
    Zuul(Build),
}

impl View for Content {
    type V = ContentV;

    open spec fn view(&self) -> ContentV {
        match self {
            Content::File(s) => ContentV::File(s@),
            Content::Directory(s) => ContentV::Directory(s@),
            Content::Zuul(b) => ContentV::Zuul(b@),
        }
    }
}

impl DeepView for Content {
    type V = ContentV;

    open spec fn deep_view(&self) -> ContentV {
        self.view()
    }
}

/// The grouping key identifying "the same kind of file" across otherwise
/// unrelated builds and paths.
#[derive(Debug, Clone, PartialEq, Eq, Hash)]
pub struct IndexName(pub String);

impl View for IndexName {
    type V = Seq<char>;

    open spec fn view(&self) -> Seq<char> {
        self.0@
    }
}

impl DeepView for IndexName {
    type V = Seq<char>;

    open spec fn deep_view(&self) -> Seq<char> {
        self.view()
    }
}

// ---------------------------------------------------------------------------
// String helpers
// ---------------------------------------------------------------------------

/// Relies on String::push: appends exactly one character at the end.
#[verifier::external_body]
pub(crate) fn push_char(s: &mut String, c: char)
    ensures
        final(s)@ == old(s)@.push(c),
{
    s.push(c)
}

/// True when `suf` is a suffix of `s`, character-wise.
pub fn has_suffix(s: &str, suf: &str) -> (r: bool)
    ensures
        r == suf@.is_suffix_of(s@),
{
    let n = s.unicode_len();
    let m = suf.unicode_len();
    if m > n {
        return false;
    }
    let mut i: usize = 0;
    while i < m
        invariant
            m <= n,
            n == s@.len(),
            m == suf@.len(),
            i <= m,
            forall|j: int| 0 <= j < i ==> s@[n - m + j] == suf@[j],
        decreases m - i,
    {
        if s.get_char(n - m + i) != suf.get_char(i) {
            proof {
                if suf@.is_suffix_of(s@) {
                    assert(suf@[i as int] == s@.subrange(n - m, n as int)[i as int]);
                }
            }
            return false;
        }
        i += 1;
    }
    proof {
        assert(suf@ =~= s@.subrange(n - m, n as int));
    }
    true
}

/// The character position just past the last `/` of `s`, or `0` when `s`
/// holds no slash: the base-name boundary of a location string.
pub open spec fn file_prefix_of(s: Seq<char>) -> int
    decreases s.len(),
{
    if s.len() == 0 {
        0
    } else if s.last() == '/' {
        s.len() as int
    } else {
        file_prefix_of(s.drop_last())
    }
}

pub proof fn lemma_file_prefix_bounds(s: Seq<char>)
    ensures
        0 <= file_prefix_of(s) <= s.len(),
    decreases s.len(),
{
    if s.len() != 0 && s.last() != '/' {
        lemma_file_prefix_bounds(s.drop_last());
    }
}

/// Finds the base-name boundary of a location string.
pub fn file_prefix_len(s: &str) -> (r: usize)
    ensures
        r == file_prefix_of(s@),
        0 <= r <= s@.len(),
{
    let n = s.unicode_len();
    proof {
        assert(s@.subrange(0, n as int) =~= s@);
        lemma_file_prefix_bounds(s@);
    }
    let mut i: usize = n;
    while i > 0
        invariant
            i <= n,
            n == s@.len(),
            file_prefix_of(s@) == file_prefix_of(s@.subrange(0, i as int)),
        decreases i,
    {
        if s.get_char(i - 1) == '/' {
            proof {
                assert(s@.subrange(0, i as int).last() == s@[i - 1]);
            }
            return i;
        }
        proof {
            assert(s@.subrange(0, i as int).drop_last() =~= s@.subrange(0, i - 1));
        }
        i -= 1;
    }
    proof {
        assert(s@.subrange(0, 0) =~= Seq::<char>::empty());
    }
    0
}

// ---------------------------------------------------------------------------
// Source methods
// ---------------------------------------------------------------------------

impl Source {
    /// Copies a source, preserving its abstract value.
    pub fn duplicate(&self) -> (r: Source)
        ensures
            r@ == self@,
    {
        match self {
            Source::Local(p, t) => Source::Local(*p, t.clone()),
            Source::Remote(p, t) => Source::Remote(*p, t.clone()),
        }
    }

    /// The full location string.
    pub fn as_str(&self) -> (r: &str)
        ensures
            r@ == src_path(self@),
    {
        match self {
            Source::Local(_, t) => t.as_str(),
            Source::Remote(_, t) => t.as_str(),
        }
    }

    fn prefix_len(&self) -> (r: usize)
        ensures
            r == src_prefix(self@),
    {
        match self {
            Source::Local(p, _) => *p,
            Source::Remote(p, _) => *p,
        }
    }

    /// The relative identity: the substring of the location starting at the
    /// stripped prefix length.
    pub fn get_relative(&self) -> (r: &str)
        requires
            src_wf(self@),
        ensures
            r@ == src_rel(self@),
    {
        let s = self.as_str();
        let n = s.unicode_len();
        let p = self.prefix_len();
        let r = s.substring_char(p, n);
        proof {
            assert(r@ =~= src_rel(self@));
        }
        r
    }

    /// A source is valid unless its relative identity ends in one of the
    /// known non-text extensions.
    pub fn is_valid(&self) -> (r: bool)
        requires
            src_wf(self@),
        ensures
            r == src_ok(self@),
    {
        let rel = self.get_relative();
        proof {
            reveal_strlit(".ico");
            reveal_strlit(".png");
            reveal_strlit(".clf");
            reveal_strlit(".sqlite");
            assert(".ico"@ =~= ext_ico());
            assert(".png"@ =~= ext_png());
            assert(".clf"@ =~= ext_clf());
            assert(".sqlite"@ =~= ext_sqlite());
        }
        !has_suffix(rel, ".ico") && !has_suffix(rel, ".png") && !has_suffix(rel, ".clf")
            && !has_suffix(rel, ".sqlite")
    }
}

// ---------------------------------------------------------------------------
// IndexName
// ---------------------------------------------------------------------------

proof fn lemma_index_name_empty()
    ensures
        index_name_of(Seq::<char>::empty()) == Seq::<char>::empty(),
{
    reveal(Seq::filter);
}

proof fn lemma_index_name_push(s: Seq<char>, c: char)
    ensures
        index_name_of(s.push(c)) == if is_digit(c) {
            index_name_of(s)
        } else {
            index_name_of(s).push(c)
        },
{
    reveal(Seq::filter);
    assert(s.push(c).drop_last() =~= s);
    assert(s.push(c).last() == c);
}

impl IndexName {
    /// Normalizes a source's relative identity into its grouping key by
    /// masking out digits.
    pub fn from_source(source: &Source) -> (r: IndexName)
        requires
            src_wf(source@),
        ensures
            r@ == src_name(source@),
    {
        let rel = source.get_relative();
        let n = rel.unicode_len();
        let mut out = String::new();
        proof {
            lemma_index_name_empty();
            assert(rel@.subrange(0, 0) =~= Seq::<char>::empty());
        }
        let mut i: usize = 0;
        while i < n
            invariant
                i <= n,
                n == rel@.len(),
                rel@ == src_rel(source@),
                out@ == index_name_of(rel@.subrange(0, i as int)),
            decreases n - i,
        {
            let c = rel.get_char(i);
            let v = c as u32;
            if !(48 <= v && v <= 57) {
                push_char(&mut out, c);
            }
            proof {
                lemma_index_name_push(rel@.subrange(0, i as int), c);
                assert(rel@.subrange(0, i as int).push(c) =~= rel@.subrange(0, i + 1));
            }
            i += 1;
        }
        proof {
            assert(rel@.subrange(0, n as int) =~= rel@);
        }
        IndexName(out)
    }

    /// The key as a string.
    pub fn as_str(&self) -> (r: &str)
        ensures
            r@ == self@,
    {
        self.0.as_str()
    }

    /// Copies the key, preserving its abstract value.
    pub fn duplicate(&self) -> (r: IndexName)
        ensures
            r@ == self@,
    {
        IndexName(self.0.clone())
    }
}

// ---------------------------------------------------------------------------
// Content resolution
// ---------------------------------------------------------------------------

/// The content a validated URL names: a trailing slash marks a directory
/// listing, anything else a single file whose base prefix covers everything
/// up to its last slash.
pub open spec fn url_content_of(s: Seq<char>) -> ContentV {
    if s.len() > 0 && s.last() == '/' {
        ContentV::Directory(SourceV::Remote(s.len(), s))
    } else {
        ContentV::File(SourceV::Remote(file_prefix_of(s) as nat, s))
    }
}

/// The leaf sources of a content before filtering: a file is its own single
/// source, directories and builds are whatever the outside enumerator
/// listed for them.
pub open spec fn expand_spec(c: ContentV, listed: Seq<SourceV>) -> Seq<SourceV> {
    match c {
        ContentV::File(s) => seq![s],
        ContentV::Directory(_) => listed,
        ContentV::Zuul(_) => listed,
    }
}

/// The valid sources of a sequence, in order.
pub open spec fn valid_of(ss: Seq<SourceV>) -> Seq<SourceV> {
    ss.filter(|s: SourceV| src_ok(s))
}

/// The sources a content contributes: its expansion, filtered to the valid
/// ones.
pub open spec fn sources_spec(c: ContentV, listed: Seq<SourceV>) -> Seq<SourceV> {
    valid_of(expand_spec(c, listed))
}

/// Only local files and CI builds can have baselines discovered for them.
pub open spec fn accepts_discovery(c: ContentV) -> bool {
    match c {
        ContentV::File(s) => s matches SourceV::Local(_, _),
        ContentV::Directory(_) => false,
        ContentV::Zuul(_) => true,
    }
}

/// The sources of a sequence whose grouping key is `name`, in order.
pub open spec fn sources_named(all: Seq<SourceV>, name: Seq<char>) -> Seq<SourceV> {
    all.filter(|s: SourceV| src_name(s) == name)
}

/// All sources contributed by a list of contents, each paired with what the
/// enumerator listed for it, in encounter order.
pub open spec fn all_of(bs: Seq<ContentV>, ls: Seq<Seq<SourceV>>) -> Seq<SourceV>
    decreases bs.len(),
{
    if bs.len() == 0 || ls.len() == 0 {
        Seq::empty()
    } else {
        sources_spec(bs.first(), ls.first()) + all_of(bs.drop_first(), ls.drop_first())
    }
}

proof fn lemma_valid_of_empty()
    ensures
        valid_of(Seq::<SourceV>::empty()) == Seq::<SourceV>::empty(),
{
    reveal(Seq::filter);
}

proof fn lemma_valid_of_push(ss: Seq<SourceV>, x: SourceV)
    ensures
        valid_of(ss.push(x)) == if src_ok(x) {
            valid_of(ss).push(x)
        } else {
            valid_of(ss)
        },
{
    reveal(Seq::filter);
    assert(ss.push(x).drop_last() =~= ss);
    assert(ss.push(x).last() == x);
}

proof fn lemma_named_empty(name: Seq<char>)
    ensures
        sources_named(Seq::<SourceV>::empty(), name) == Seq::<SourceV>::empty(),
{
    reveal(Seq::filter);
}

proof fn lemma_named_push(all: Seq<SourceV>, x: SourceV, name: Seq<char>)
    ensures
        sources_named(all.push(x), name) == if src_name(x) == name {
            sources_named(all, name).push(x)
        } else {
            sources_named(all, name)
        },
{
    reveal(Seq::filter);
    assert(all.push(x).drop_last() =~= all);
    assert(all.push(x).last() == x);
}

proof fn lemma_all_of_snoc(bs: Seq<ContentV>, ls: Seq<Seq<SourceV>>)
    requires
        bs.len() == ls.len(),
        bs.len() > 0,
    ensures
        all_of(bs, ls) == all_of(bs.drop_last(), ls.drop_last()) + sources_spec(
            bs.last(),
            ls.last(),
        ),
    decreases bs.len(),
{
    if bs.len() == 1 {
        reveal_with_fuel(all_of, 2);
        assert(bs.drop_first() =~= Seq::<ContentV>::empty());
        assert(bs.drop_last() =~= Seq::<ContentV>::empty());
        assert(ls.drop_last() =~= Seq::<Seq<SourceV>>::empty());
        assert(bs.first() == bs.last());
        assert(ls.first() == ls.last());
        assert(all_of(bs.drop_first(), ls.drop_first()) =~= Seq::<SourceV>::empty());
        assert(all_of(bs.drop_last(), ls.drop_last()) =~= Seq::<SourceV>::empty());
        assert(all_of(bs, ls) =~= all_of(bs.drop_last(), ls.drop_last()) + sources_spec(
            bs.last(),
            ls.last(),
        ));
    } else {
        lemma_all_of_snoc(bs.drop_first(), ls.drop_first());
        assert(bs.drop_first().drop_last() =~= bs.drop_last().drop_first());
        assert(ls.drop_first().drop_last() =~= ls.drop_last().drop_first());
        assert(bs.drop_first().last() == bs.last());
        assert(ls.drop_first().last() == ls.last());
        assert(bs.drop_last().first() == bs.first());
        assert(ls.drop_last().first() == ls.first());
        assert(all_of(bs, ls) == sources_spec(bs.first(), ls.first()) + all_of(
            bs.drop_first(),
            ls.drop_first(),
        ));
        assert(all_of(bs.drop_last(), ls.drop_last()) == sources_spec(bs.first(), ls.first())
            + all_of(bs.drop_last().drop_first(), ls.drop_last().drop_first()));
        assert(all_of(bs.drop_first(), ls.drop_first()) == all_of(
            bs.drop_last().drop_first(),
            ls.drop_last().drop_first(),
        ) + sources_spec(bs.last(), ls.last()));
        assert(sources_spec(bs.first(), ls.first()) + (all_of(
            bs.drop_last().drop_first(),
            ls.drop_last().drop_first(),
        ) + sources_spec(bs.last(), ls.last())) =~= (sources_spec(bs.first(), ls.first()) + all_of(
            bs.drop_last().drop_first(),
            ls.drop_last().drop_first(),
        )) + sources_spec(bs.last(), ls.last()));
        assert(all_of(bs, ls) =~= all_of(bs.drop_last(), ls.drop_last()) + sources_spec(
            bs.last(),
            ls.last(),
        ));
    }
}

impl Content {
    /// Copies a content, preserving its abstract value.
    pub fn duplicate(&self) -> (r: Content)
        ensures
            r@ == self@,
    {
        match self {
            Content::File(s) => Content::File(s.duplicate()),
            Content::Directory(s) => Content::Directory(s.duplicate()),
            Content::Zuul(b) => Content::Zuul(
                Build {
                    uuid: b.uuid.clone(),
                    job_name: b.job_name.clone(),
                    log_url: b.log_url.clone(),
                },
            ),
        }
    }

    /// Builds the content an already-validated URL string names.
    pub fn content_of_url(url: String) -> (c: Content)
        ensures
            c@ == url_content_of(url@),
            cnt_wf(c@),
    {
        let n = url.as_str().unicode_len();
        if n > 0 && url.as_str().get_char(n - 1) == '/' {
            Content::Directory(Source::Remote(n, url))
        } else {
            let p = file_prefix_len(url.as_str());
            Content::File(Source::Remote(p, url))
        }
    }

    /// Converts user input into content. A path needs the caller to say
    /// whether it names a directory (a fact of the filesystem); a URL is
    /// validated and normalized by the `url` crate and rejected as
    /// `MalformedUrl` when it cannot be parsed.
    pub fn from_input(input: Input, path_is_dir: bool) -> (r: Result<Content, Error>)
        ensures
            match input {
                Input::Path(p) => r matches Ok(c) && c@ == (if path_is_dir {
                    ContentV::Directory(SourceV::Local(file_prefix_of(p@) as nat, p@))
                } else {
                    ContentV::File(SourceV::Local(file_prefix_of(p@) as nat, p@))
                }),
                Input::Url(u) => match r {
                    Ok(c) => c@ == url_content_of(parsed_url_of(u@)),
                    Err(e) => e == Error::MalformedUrl,
                },
            },
            r matches Ok(c) ==> cnt_wf(c@),
    {
        match input {
            Input::Path(p) => {
                let pre = file_prefix_len(p.as_str());
                if path_is_dir {
                    Ok(Content::Directory(Source::Local(pre, p)))
                } else {
                    Ok(Content::File(Source::Local(pre, p)))
                }
            },
            Input::Url(u) => match parse_url(u.as_str()) {
                Some(norm) => Ok(Content::content_of_url(norm)),
                None => Err(Error::MalformedUrl),
            },
        }
    }

    /// Applies the discovery policy to what the outside discovery step
    /// proposed for this content: directories never discover baselines,
    /// remote files cannot either, and an empty proposal is a configuration
    /// error, never a clean result.
    pub fn discover_baselines(&self, found: Vec<Content>) -> (r: Result<Vec<Content>, Error>)
        ensures
            !accepts_discovery(self@) ==> r == Err::<Vec<Content>, Error>(
                Error::BaselinesNotProvided,
            ),
            accepts_discovery(self@) && found@.len() == 0 ==> r == Err::<Vec<Content>, Error>(
                Error::EmptyBaselines,
            ),
            accepts_discovery(self@) && found@.len() != 0 ==> (r matches Ok(v) && v == found),
    {
        match self {
            Content::Directory(_) => Err(Error::BaselinesNotProvided),
            Content::File(Source::Remote(_, _)) => Err(Error::BaselinesNotProvided),
            _ => if found.len() == 0 {
                Err(Error::EmptyBaselines)
            } else {
                Ok(found)
            },
        }
    }

    /// Expands this content to its leaf sources, unfiltered.
    pub fn get_sources_iter(&self, listed: Vec<Source>) -> (r: Vec<Source>)
        ensures
            r.deep_view() == expand_spec(self@, listed.deep_view()),
    {
        match self {
            Content::File(src) => {
                let mut v: Vec<Source> = Vec::new();
                v.push(src.duplicate());
                proof {
                    assert(v.deep_view() =~= expand_spec(self@, listed.deep_view()));
                }
                v
            },
            _ => listed,
        }
    }

    /// Expands this content and keeps only the valid sources; an empty
    /// result is a configuration error.
    pub fn get_sources(&self, listed: &Vec<Source>) -> (r: Result<Vec<Source>, Error>)
        requires
            cnt_wf(self@),
            forall|i: int|
                0 <= i < listed.deep_view().len() ==> src_wf(#[trigger] listed.deep_view()[i]),
        ensures
            r matches Err(e) ==> e == Error::EmptySources,
            r is Err <==> sources_spec(self@, listed.deep_view()).len() == 0,
            r matches Ok(v) ==> v.deep_view() == sources_spec(self@, listed.deep_view()),
            r matches Ok(v) ==> forall|i: int|
                0 <= i < v.deep_view().len() ==> src_wf(#[trigger] v.deep_view()[i]),
    {
        let mut out: Vec<Source> = Vec::new();
        proof {
            lemma_valid_of_empty();
        }
        match self {
            Content::File(src) => {
                proof {
                    assert(expand_spec(self@, listed.deep_view()) =~= Seq::<
                        SourceV,
                    >::empty().push(src@));
                    lemma_valid_of_push(Seq::<SourceV>::empty(), src@);
                }
                if src.is_valid() {
                    out.push(src.duplicate());
                }
                proof {
                    if src_ok(src@) {
                        assert(out.deep_view() =~= sources_spec(self@, listed.deep_view()));
                    } else {
                        assert(out.deep_view() =~= sources_spec(self@, listed.deep_view()));
                    }
                }
            },
            _ => {
                let ghost exp = expand_spec(self@, listed.deep_view());
                proof {
                    assert(exp == listed.deep_view());
                    assert(exp.subrange(0, 0) =~= Seq::<SourceV>::empty());
                }
                let mut i: usize = 0;
                while i < listed.len()
                    invariant
                        i <= listed.len(),
                        exp == listed.deep_view(),
                        forall|j: int|
                            0 <= j < listed.deep_view().len() ==> src_wf(
                                #[trigger] listed.deep_view()[j],
                            ),
                        out.deep_view() == valid_of(exp.subrange(0, i as int)),
                        forall|j: int|
                            0 <= j < out.deep_view().len() ==> src_wf(
                                #[trigger] out.deep_view()[j],
                            ),
                    decreases listed.len() - i,
                {
                    let s = &listed[i];
                    proof {
                        assert(s@ == exp[i as int]);
                        lemma_valid_of_push(exp.subrange(0, i as int), s@);
                        assert(exp.subrange(0, i as int).push(s@) =~= exp.subrange(0, i + 1));
                    }
                    if s.is_valid() {
                        let ghost pre = out.deep_view();
                        out.push(s.duplicate());
                        proof {
                            assert(out.deep_view() =~= pre.push(s@));
                        }
                    }
                    i += 1;
                }
                proof {
                    assert(exp.subrange(0, listed.len() as int) =~= exp);
                }
            },
        }
        if out.len() == 0 {
            Err(Error::EmptySources)
        } else {
            Ok(out)
        }
    }
}

// ---------------------------------------------------------------------------
// Grouping
// ---------------------------------------------------------------------------

/// Finds the group with the given key, if any.
fn find_group(groups: &Vec<(IndexName, Vec<Source>)>, name: &IndexName) -> (r: Option<usize>)
    ensures
        r matches Some(k) ==> k < groups@.len() && groups@[k as int].0@ == name@,
        r is None ==> forall|k: int| 0 <= k < groups@.len() ==> (#[trigger] groups@[k]).0@ != name@,
{
    let mut k: usize = 0;
    while k < groups.len()
        invariant
            k <= groups@.len(),
            forall|j: int| 0 <= j < k ==> (#[trigger] groups@[j]).0@ != name@,
        decreases groups@.len() - k,
    {
        if groups[k].0.0 == name.0 {
            return Some(k);
        }
        k += 1;
    }
    None
}

/// Every source of `acc` has its grouping key among the groups' keys.
pub open spec fn covered(acc: Seq<SourceV>, groups: Seq<(IndexName, Vec<Source>)>) -> bool {
    forall|t: int|
        0 <= t < acc.len() ==> exists|k: int|
            0 <= k < groups.len() && groups[k].0@ == src_name(#[trigger] acc[t])
}

proof fn lemma_named_absent(all: Seq<SourceV>, name: Seq<char>)
    requires
        forall|t: int| 0 <= t < all.len() ==> src_name(#[trigger] all[t]) != name,
    ensures
        sources_named(all, name).len() == 0,
    decreases all.len(),
{
    if all.len() == 0 {
        lemma_named_empty(name);
    } else {
        lemma_named_absent(all.drop_last(), name);
        lemma_named_push(all.drop_last(), all.last(), name);
        assert(all.drop_last().push(all.last()) =~= all);
    }
}

impl Content {
    /// Expands each baseline content and partitions all resulting sources
    /// into groups keyed by their `IndexName`. Every valid source lands in
    /// exactly one group, and within a group sources keep their overall
    /// encounter order across the input list.
    pub fn group_sources(baselines: &Vec<Content>, listed: &Vec<Vec<Source>>) -> (r: Result<
        Vec<(IndexName, Vec<Source>)>,
        Error,
    >)
        requires
            listed@.len() == baselines@.len(),
            forall|i: int|
                0 <= i < baselines.deep_view().len() ==> cnt_wf(#[trigger] baselines.deep_view()[i]),
            forall|i: int, j: int|
                0 <= i < listed.deep_view().len() && 0 <= j < listed.deep_view()[i].len()
                    ==> src_wf(#[trigger] listed.deep_view()[i][j]),
        ensures
            r matches Err(e) ==> e == Error::EmptySources && exists|i: int|
                0 <= i < baselines.deep_view().len() && sources_spec(
                    #[trigger] baselines.deep_view()[i],
                    listed.deep_view()[i],
                ).len() == 0,
            r matches Ok(g) ==> {
                &&& forall|i: int|
                    0 <= i < baselines.deep_view().len() ==> sources_spec(
                        #[trigger] baselines.deep_view()[i],
                        listed.deep_view()[i],
                    ).len() != 0
                &&& forall|k: int|
                    0 <= k < g@.len() ==> (#[trigger] g@[k]).1.deep_view() == sources_named(
                        all_of(baselines.deep_view(), listed.deep_view()),
                        g@[k].0@,
                    )
                &&& forall|k1: int, k2: int|
                    0 <= k1 < k2 < g@.len() ==> (#[trigger] g@[k1]).0@ != (#[trigger] g@[k2]).0@
                &&& covered(all_of(baselines.deep_view(), listed.deep_view()), g@)
            },
    {
        let ghost bs = baselines.deep_view();
        let ghost ls = listed.deep_view();
        let mut groups: Vec<(IndexName, Vec<Source>)> = Vec::new();
        let ghost mut acc = Seq::<SourceV>::empty();
        proof {
            assert(bs.subrange(0, 0) =~= Seq::<ContentV>::empty());
            assert(ls.subrange(0, 0) =~= Seq::<Seq<SourceV>>::empty());
        }
        let mut ci: usize = 0;
        while ci < baselines.len()
            invariant
                ci <= baselines@.len(),
                bs == baselines.deep_view(),
                ls == listed.deep_view(),
                listed@.len() == baselines@.len(),
                bs.len() == baselines@.len(),
                ls.len() == listed@.len(),
                forall|i: int| 0 <= i < bs.len() ==> cnt_wf(#[trigger] bs[i]),
                forall|i: int, j: int|
                    0 <= i < ls.len() && 0 <= j < ls[i].len() ==> src_wf(#[trigger] ls[i][j]),
                acc == all_of(bs.subrange(0, ci as int), ls.subrange(0, ci as int)),
                forall|k: int|
                    0 <= k < groups@.len() ==> (#[trigger] groups@[k]).1.deep_view()
                        == sources_named(acc, groups@[k].0@),
                forall|k1: int, k2: int|
                    0 <= k1 < k2 < groups@.len() ==> (#[trigger] groups@[k1]).0@ != (
                    #[trigger] groups@[k2]).0@,
                covered(acc, groups@),
                forall|i: int| 0 <= i < ci ==> sources_spec(bs[i], ls[i]).len() != 0,
            decreases baselines@.len() - ci,
        {
            proof {
                assert(baselines@[ci as int].deep_view() == bs[ci as int]);
                assert(listed@[ci as int].deep_view() == ls[ci as int]);
            }
            let srcs = match baselines[ci].get_sources(&listed[ci]) {
                Ok(v) => v,
                Err(e) => {
                    return Err(e);
                },
            };
            let ghost cs = srcs.deep_view();
            let ghost base = acc;
            proof {
                assert(cs.subrange(0, 0) =~= Seq::<SourceV>::empty());
                assert(base + cs.subrange(0, 0) =~= base);
            }
            let mut si: usize = 0;
            while si < srcs.len()
                invariant
                    si <= srcs@.len(),
                    cs == srcs.deep_view(),
                    cs.len() == srcs@.len(),
                    forall|j: int| 0 <= j < cs.len() ==> src_wf(#[trigger] cs[j]),
                    acc == base + cs.subrange(0, si as int),
                    forall|k: int|
                        0 <= k < groups@.len() ==> (#[trigger] groups@[k]).1.deep_view()
                            == sources_named(acc, groups@[k].0@),
                    forall|k1: int, k2: int|
                        0 <= k1 < k2 < groups@.len() ==> (#[trigger] groups@[k1]).0@ != (
                        #[trigger] groups@[k2]).0@,
                    covered(acc, groups@),
                decreases srcs@.len() - si,
            {
                let s = &srcs[si];
                proof {
                    assert(s@ == cs[si as int]);
                }
                let name = IndexName::from_source(s);
                let ghost old_groups = groups@;
                let ghost old_acc = acc;
                let ghost sv = cs[si as int];
                let ghost mut kk: int = 0;
                match find_group(&groups, &name) {
                    Some(k) => {
                        let (nm, mut vs) = groups.remove(k);
                        let ghost pre = vs.deep_view();
                        vs.push(s.duplicate());
                        proof {
                            assert(vs.deep_view() =~= pre.push(sv));
                        }
                        groups.insert(k, (nm, vs));
                        proof {
                            kk = k as int;
                            assert(groups@ =~= old_groups.update(
                                k as int,
                                (groups@[k as int].0, groups@[k as int].1),
                            ));
                            assert(groups@[k as int].0@ == old_groups[k as int].0@);
                            assert(groups@[k as int].1.deep_view() == old_groups[k as int].1.deep_view().push(sv));
                        }
                    },
                    None => {
                        let mut vs: Vec<Source> = Vec::new();
                        vs.push(s.duplicate());
                        proof {
                            assert(vs.deep_view() =~= Seq::<SourceV>::empty().push(sv));
                        }
                        groups.push((name, vs));
                        proof {
                            kk = groups@.len() - 1;
                            assert forall|t: int| 0 <= t < old_acc.len() implies src_name(
                                #[trigger] old_acc[t],
                            ) != groups@[groups@.len() - 1].0@ by {
                                assert(covered(old_acc, old_groups));
                                let k0 = choose|k: int|
                                    0 <= k < old_groups.len() && old_groups[k].0@ == src_name(
                                        old_acc[t],
                                    );
                            }
                            lemma_named_absent(old_acc, groups@[groups@.len() - 1].0@);
                        }
                    },
                }
                proof {
                    acc = old_acc.push(sv);
                    assert(cs.subrange(0, si + 1) =~= cs.subrange(0, si as int).push(sv));
                    assert(base + cs.subrange(0, si + 1) =~= (base + cs.subrange(
                        0,
                        si as int,
                    )).push(sv));
                    assert(forall|j: int|
                        0 <= j < old_groups.len() ==> (#[trigger] groups@[j]).0@
                            == old_groups[j].0@);
                    assert(0 <= kk < groups@.len() && groups@[kk].0@ == src_name(sv));
                    assert forall|k2: int| 0 <= k2 < groups@.len() implies (
                    #[trigger] groups@[k2]).1.deep_view() == sources_named(acc, groups@[k2].0@) by {
                        lemma_named_push(old_acc, sv, groups@[k2].0@);
                    }
                    assert(covered(acc, groups@)) by {
                        assert forall|t: int| 0 <= t < acc.len() implies exists|k: int|
                            0 <= k < groups@.len() && groups@[k].0@ == src_name(
                                #[trigger] acc[t],
                            ) by {
                            if t < old_acc.len() {
                                assert(acc[t] == old_acc[t]);
                                assert(covered(old_acc, old_groups));
                                let k0 = choose|k: int|
                                    0 <= k < old_groups.len() && old_groups[k].0@ == src_name(
                                        old_acc[t],
                                    );
                                assert(groups@[k0].0@ == src_name(acc[t]));
                            } else {
                                assert(acc[t] == sv);
                                assert(groups@[kk].0@ == src_name(acc[t]));
                            }
                        }
                    }
                }
                si += 1;
            }
            proof {
                assert(cs.subrange(0, srcs@.len() as int) =~= cs);
                assert(bs.subrange(0, ci + 1).drop_last() =~= bs.subrange(0, ci as int));
                assert(ls.subrange(0, ci + 1).drop_last() =~= ls.subrange(0, ci as int));
                assert(bs.subrange(0, ci + 1).last() == bs[ci as int]);
                assert(ls.subrange(0, ci + 1).last() == ls[ci as int]);
                lemma_all_of_snoc(bs.subrange(0, ci + 1), ls.subrange(0, ci + 1));
                assert(acc == all_of(bs.subrange(0, ci + 1), ls.subrange(0, ci + 1)));
            }
            ci += 1;
        }
        proof {
            assert(bs.subrange(0, baselines@.len() as int) =~= bs);
            assert(ls.subrange(0, listed@.len() as int) =~= ls);
        }
        Ok(groups)
    }
}

// ---------------------------------------------------------------------------
// The partition law
// ---------------------------------------------------------------------------

/// Concatenation of all per-name groups of `all`, one group per name, in
/// the names' order.
pub open spec fn groups_concat(names: Seq<Seq<char>>, all: Seq<SourceV>) -> Seq<SourceV>
    decreases names.len(),
{
    if names.len() == 0 {
        Seq::empty()
    } else {
        sources_named(all, names.first()) + groups_concat(names.drop_first(), all)
    }
}

proof fn lemma_groups_concat_of_empty(names: Seq<Seq<char>>)
    ensures
        groups_concat(names, Seq::<SourceV>::empty()).len() == 0,
    decreases names.len(),
{
    if names.len() > 0 {
        lemma_named_empty(names.first());
        lemma_groups_concat_of_empty(names.drop_first());
    }
}

proof fn lemma_groups_concat_push(names: Seq<Seq<char>>, all: Seq<SourceV>, x: SourceV)
    requires
        forall|k1: int, k2: int| 0 <= k1 < k2 < names.len() ==> names[k1] != names[k2],
    ensures
        groups_concat(names, all.push(x)).to_multiset() == if exists|k: int|
            0 <= k < names.len() && names[k] == src_name(x) {
            groups_concat(names, all).to_multiset().insert(x)
        } else {
            groups_concat(names, all).to_multiset()
        },
    decreases names.len(),
{
    broadcast use vstd::seq_lib::group_to_multiset_ensures;
    broadcast use vstd::multiset::group_multiset_axioms;

    if names.len() == 0 {
    } else {
        let h = names.first();
        let t = names.drop_first();
        assert(forall|k1: int, k2: int| 0 <= k1 < k2 < t.len() ==> t[k1] != t[k2]) by {
            assert(forall|k: int| 0 <= k < t.len() ==> t[k] == names[k + 1]);
        }
        lemma_named_push(all, x, h);
        lemma_groups_concat_push(t, all, x);
        vstd::seq_lib::lemma_multiset_commutative(sources_named(all.push(x), h), groups_concat(t, all.push(x)));
        vstd::seq_lib::lemma_multiset_commutative(sources_named(all, h), groups_concat(t, all));
        if src_name(x) == h {
            // the head group takes x; distinct names keep it out of the tail
            assert(forall|k: int| 0 <= k < t.len() ==> t[k] != src_name(x)) by {
                assert(forall|k: int| 0 <= k < t.len() ==> t[k] == names[k + 1] && names[0] != names[k + 1]);
            }
            assert(!(exists|k: int| 0 <= k < t.len() && t[k] == src_name(x)));
            assert(sources_named(all.push(x), h).to_multiset() =~= sources_named(
                all,
                h,
            ).to_multiset().insert(x));
            assert(groups_concat(names, all.push(x)).to_multiset() =~= groups_concat(
                names,
                all,
            ).to_multiset().insert(x));
            assert(exists|k: int| 0 <= k < names.len() && names[k] == src_name(x)) by {
                assert(names[0] == src_name(x));
            }
        } else {
            if exists|k: int| 0 <= k < names.len() && names[k] == src_name(x) {
                let k0 = choose|k: int| 0 <= k < names.len() && names[k] == src_name(x);
                assert(0 < k0);
                assert(t[k0 - 1] == src_name(x));
                assert(groups_concat(names, all.push(x)).to_multiset() =~= groups_concat(
                    names,
                    all,
                ).to_multiset().insert(x));
            } else {
                assert(!(exists|k: int| 0 <= k < t.len() && t[k] == src_name(x))) by {
                    assert(forall|k: int| 0 <= k < t.len() ==> t[k] == names[k + 1]);
                }
                assert(groups_concat(names, all.push(x)).to_multiset() =~= groups_concat(
                    names,
                    all,
                ).to_multiset());
            }
        }
    }
}

/// Law: grouping by name is a strict partition. With pairwise-distinct
/// names that cover every source — exactly the shape `group_sources`
/// guarantees of its result — concatenating the per-name groups reproduces
/// the multiset of grouped sources: every source lands in exactly one group
/// and none is lost or invented.
pub proof fn lemma_groups_partition(names: Seq<Seq<char>>, all: Seq<SourceV>)
    requires
        forall|k1: int, k2: int| 0 <= k1 < k2 < names.len() ==> names[k1] != names[k2],
        forall|t: int|
            0 <= t < all.len() ==> exists|k: int|
                0 <= k < names.len() && names[k] == src_name(#[trigger] all[t]),
    ensures
        groups_concat(names, all).to_multiset() == all.to_multiset(),
    decreases all.len(),
{
    broadcast use vstd::seq_lib::group_to_multiset_ensures;
    broadcast use vstd::multiset::group_multiset_axioms;

    if all.len() == 0 {
        assert(all =~= Seq::<SourceV>::empty());
        lemma_groups_concat_of_empty(names);
        assert(groups_concat(names, Seq::<SourceV>::empty()) =~= Seq::<SourceV>::empty());
    } else {
        let a = all.drop_last();
        let x = all.last();
        lemma_groups_partition(names, a);
        lemma_groups_concat_push(names, a, x);
        assert(a.push(x) =~= all);
        assert(exists|k: int| 0 <= k < names.len() && names[k] == src_name(x)) by {
            assert(all[all.len() - 1] == x);
        }
        assert(all.to_multiset() =~= a.to_multiset().insert(x));
    }
}

} // verus!
