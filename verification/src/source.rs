//! Where a raster comes from: local paths and object stores, with options.

use vstd::prelude::*;

use object_store::aws::AmazonS3ConfigKey;
use object_store::azure::AzureConfigKey;
use object_store::gcp::GoogleConfigKey;
use object_store::{ClientConfigKey, ObjectStoreScheme};
use url::Url;

use crate::error::{is_invalid, is_unsupported, A5CogError};
use crate::text::{
    decimal, decimal_usize, join2, join3, join5, lower, push_char, quote, quoted, str_eq, to_chars,
    to_lower, to_upper, trim, trimmed, upper,
};

verus! {

/// `url::Url`: a parsed URL.
#[verifier::external_type_specification]
#[verifier::external_body]
pub struct ExUrl(url::Url);

// ---------------------------------------------------------------------------
// options

/// Options of a source, each a key in small letters with its value.
pub type StoreOpts = Vec<(String, String)>;

/// The key and value of entry `i`, as options hold them.
pub open spec fn option_of(keys: Seq<String>, values: Seq<String>, i: int) -> (Seq<char>, Seq<char>) {
    (lower(trimmed(keys[i]@)), values[i]@)
}

/// The key and value of an option.
pub open spec fn option_text(o: (String, String)) -> (Seq<char>, Seq<char>) {
    (o.0@, o.1@)
}

/// Pairs keys with values; keys lose blanks around them and capitals.
pub fn parse_store_opts(keys: &Vec<String>, values: &Vec<String>) -> (r: Result<
    StoreOpts,
    A5CogError,
>)
    ensures
        if keys@.len() != values@.len() {
            r matches Err(e) && is_invalid(
                e,
                "store_opts: "@ + decimal(keys@.len()) + " keys but "@ + decimal(values@.len())
                    + " values"@,
            )
        } else {
            r matches Ok(v) && v@.len() == keys@.len() && forall|i: int|
                0 <= i < v@.len() ==> option_text(#[trigger] v@[i]) == option_of(
                    keys@,
                    values@,
                    i,
                )
        },
{
    if keys.len() != values.len() {
        let a = decimal_usize(keys.len());
        let b = decimal_usize(values.len());
        return Err(
            A5CogError::Invalid(
                join5("store_opts: ", a.as_str(), " keys but ", b.as_str(), " values"),
            ),
        );
    }
    let mut opts: StoreOpts = Vec::new();
    for i in 0..keys.len()
        invariant
            keys@.len() == values@.len(),
            opts@.len() == i,
            forall|k: int|
                0 <= k < i ==> option_text(#[trigger] opts@[k]) == option_of(keys@, values@, k),
    {
        let t = trim(keys[i].as_str());
        let k = to_lower(t.as_str());
        opts.push((k, values[i].clone()));
    }
    Ok(opts)
}

/// The text stands for yes: `YES`, `TRUE`, `ON` or `1`, in any case and with
/// blanks around it.
pub open spec fn is_truthy(s: Seq<char>) -> bool {
    let t = upper(trimmed(s));
    t == "YES"@ || t == "TRUE"@ || t == "ON"@ || t == "1"@
}

/// Whether a setting is on; one that is absent is off.
pub fn truthy(v: Option<&str>) -> (r: bool)
    ensures
        r == (match v {
            Some(s) => is_truthy(s@),
            None => false,
        }),
{
    match v {
        None => false,
        Some(s) => {
            let t = trim(s);
            let u = to_upper(t.as_str());
            let u = u.as_str();
            str_eq(u, "YES") || str_eq(u, "TRUE") || str_eq(u, "ON") || str_eq(u, "1")
        },
    }
}

/// The text of the error for an option that a provider does not know.
pub open spec fn unknown_key_text(provider: Seq<char>, key: Seq<char>) -> Seq<char> {
    "store_opts: unknown option "@ + quoted(key) + " for "@ + provider
        + " sources (see object_store's "@ + provider + " config keys)"@
}

/// The error for an option that a provider does not know.
pub fn unknown_key(provider: &str, key: &str) -> (r: A5CogError)
    ensures
        is_invalid(r, unknown_key_text(provider@, key@)),
{
    let q = quote(key);
    let head = join5(
        "store_opts: unknown option ",
        q.as_str(),
        " for ",
        provider,
        " sources (see object_store's ",
    );
    A5CogError::Invalid(join3(head.as_str(), provider, " config keys)"))
}

/// The text of the error for options where none are taken.
pub open spec fn rejected_text(what: Seq<char>, key: Seq<char>) -> Seq<char> {
    "store_opts: "@ + quoted(key) + " was given but "@ + what + " sources take no store options"@
}

/// Refuses any option.
pub fn reject_opts(what: &str, opts: &StoreOpts) -> (r: Result<(), A5CogError>)
    ensures
        if opts@.len() == 0 {
            r is Ok
        } else {
            r matches Err(e) && is_invalid(e, rejected_text(what@, opts@[0].0@))
        },
{
    if opts.len() == 0 {
        return Ok(());
    }
    let q = quote(opts[0].0.as_str());
    Err(
        A5CogError::Invalid(
            join5(
                "store_opts: ",
                q.as_str(),
                " was given but ",
                what,
                " sources take no store options",
            ),
        ),
    )
}

// ---------------------------------------------------------------------------
// what the outside crates tell

/// The URL that a text is, if it is one.
pub uninterp spec fn parsed_url(src: Seq<char>) -> Option<Url>;

/// `url::Url::parse`, a function of the text.
#[verifier::external_body]
fn parse_url(src: &str) -> (r: Option<Url>)
    ensures
        r == parsed_url(src@),
{
    Url::parse(src).ok()
}

/// The scheme of a URL.
pub uninterp spec fn scheme_text(u: Url) -> Seq<char>;

/// `Url::scheme`.
#[verifier::external_body]
fn url_scheme(u: &Url) -> (r: String)
    ensures
        r@ == scheme_text(*u),
{
    u.scheme().to_owned()
}

/// The host of a URL, if it has one.
pub uninterp spec fn host_text(u: Url) -> Option<Seq<char>>;

/// `Url::host_str`.
#[verifier::external_body]
fn url_host(u: &Url) -> (r: Option<String>)
    ensures
        match host_text(*u) {
            Some(h) => r matches Some(s) && s@ == h,
            None => r is None,
        },
{
    u.host_str().map(|h| h.to_owned())
}

/// A URL as it is shown.
pub uninterp spec fn shown_url(u: Url) -> Seq<char>;

/// `Url::as_str`, which is what `Display` shows.
#[verifier::external_body]
fn url_text(u: &Url) -> (r: String)
    ensures
        r@ == shown_url(*u),
{
    u.as_str().to_owned()
}

/// A URL up to its path.
pub uninterp spec fn url_origin(u: Url) -> Seq<char>;

/// `Url` indexed up to `Position::BeforePath`: the text of the URL before its path.
#[verifier::external_body]
fn url_base(u: &Url) -> (r: String)
    ensures
        r@ == url_origin(*u),
{
    u[..url::Position::BeforePath].to_owned()
}

/// The object store that a URL belongs to.
pub enum Scheme {
    S3,
    Gcs,
    Azure,
    Http,
    File,
    /// Any other, as `{:?}` shows it.
    Other(String),
}

/// The object store that a URL belongs to, as a value of specifications.
pub enum SchemeText {
    S3,
    Gcs,
    Azure,
    Http,
    File,
    Other(Seq<char>),
}

/// The scheme with its text.
pub open spec fn scheme_view(s: Scheme) -> SchemeText {
    match s {
        Scheme::S3 => SchemeText::S3,
        Scheme::Gcs => SchemeText::Gcs,
        Scheme::Azure => SchemeText::Azure,
        Scheme::Http => SchemeText::Http,
        Scheme::File => SchemeText::File,
        Scheme::Other(t) => SchemeText::Other(t@),
    }
}

/// The object store of a URL and the path of its object within the store, or the
/// text of the error.
pub uninterp spec fn store_scheme(u: Url) -> Result<(SchemeText, Seq<char>), Seq<char>>;

/// `ObjectStoreScheme::parse`, which goes by scheme, host and path of the URL: the
/// store that the URL belongs to and the path that is left within it.
#[verifier::external_body]
fn parse_scheme(u: &Url) -> (r: Result<(Scheme, String), String>)
    ensures
        match store_scheme(*u) {
            Ok(s) => r matches Ok(t) && scheme_view(t.0) == s.0 && t.1@ == s.1,
            Err(m) => r matches Err(t) && t@ == m,
        },
{
    match ObjectStoreScheme::parse(u) {
        Ok((ObjectStoreScheme::AmazonS3, p)) => Ok((Scheme::S3, p.into())),
        Ok((ObjectStoreScheme::GoogleCloudStorage, p)) => Ok((Scheme::Gcs, p.into())),
        Ok((ObjectStoreScheme::MicrosoftAzure, p)) => Ok((Scheme::Azure, p.into())),
        Ok((ObjectStoreScheme::Http, p)) => Ok((Scheme::Http, p.into())),
        Ok((ObjectStoreScheme::Local, p)) => Ok((Scheme::File, p.into())),
        Ok((other, p)) => Ok((Scheme::Other(format!("{:?}", other)), p.into())),
        Err(e) => Err(e.to_string()),
    }
}

/// S3 stores know the option.
pub uninterp spec fn s3_key(key: Seq<char>) -> bool;

/// `AmazonS3ConfigKey` parsed from a text, which it matches against a list.
#[verifier::external_body]
fn is_s3_key(key: &str) -> (r: bool)
    ensures
        r == s3_key(key@),
{
    key.parse::<AmazonS3ConfigKey>().is_ok()
}

/// Google stores know the option.
pub uninterp spec fn gcs_key(key: Seq<char>) -> bool;

/// `GoogleConfigKey` parsed from a text, which it matches against a list.
#[verifier::external_body]
fn is_gcs_key(key: &str) -> (r: bool)
    ensures
        r == gcs_key(key@),
{
    key.parse::<GoogleConfigKey>().is_ok()
}

/// Azure stores know the option.
pub uninterp spec fn azure_key(key: Seq<char>) -> bool;

/// `AzureConfigKey` parsed from a text, which it matches against a list.
#[verifier::external_body]
fn is_azure_key(key: &str) -> (r: bool)
    ensures
        r == azure_key(key@),
{
    key.parse::<AzureConfigKey>().is_ok()
}

/// HTTP stores know the option.
pub uninterp spec fn http_key(key: Seq<char>) -> bool;

/// `ClientConfigKey` parsed from a text, which it matches against a list.
#[verifier::external_body]
fn is_http_key(key: &str) -> (r: bool)
    ensures
        r == http_key(key@),
{
    key.parse::<ClientConfigKey>().is_ok()
}

// ---------------------------------------------------------------------------
// resolving a source

/// The providers that take options.
#[derive(Clone, Copy, Debug, PartialEq, Eq, Structural)]
pub enum Provider {
    S3,
    Gcs,
    Azure,
    Http,
}

/// A provider as error messages name it.
pub open spec fn provider_name(p: Provider) -> Seq<char> {
    match p {
        Provider::S3 => "S3"@,
        Provider::Gcs => "GCS"@,
        Provider::Azure => "Azure"@,
        Provider::Http => "HTTP"@,
    }
}

/// The provider knows the option.
pub open spec fn knows(p: Provider, key: Seq<char>) -> bool {
    match p {
        Provider::S3 => s3_key(key),
        Provider::Gcs => gcs_key(key),
        Provider::Azure => azure_key(key),
        Provider::Http => http_key(key),
    }
}

fn provider_label(p: Provider) -> (r: &'static str)
    ensures
        r@ == provider_name(p),
{
    match p {
        Provider::S3 => "S3",
        Provider::Gcs => "GCS",
        Provider::Azure => "Azure",
        Provider::Http => "HTTP",
    }
}

fn provider_knows(p: Provider, key: &str) -> (r: bool)
    ensures
        r == knows(p, key@),
{
    match p {
        Provider::S3 => is_s3_key(key),
        Provider::Gcs => is_gcs_key(key),
        Provider::Azure => is_azure_key(key),
        Provider::Http => is_http_key(key),
    }
}

/// Option `i` is the first that does not satisfy `known`.
pub open spec fn first_unknown(opts: Seq<(String, String)>, known: Seq<bool>, i: int) -> bool {
    0 <= i < opts.len() && !known[i] && forall|k: int| 0 <= k < i ==> #[trigger] known[k]
}

/// The error for the first option that is not known, given which ones are.
pub fn check_known(provider: &str, opts: &StoreOpts, known: &Vec<bool>) -> (r: Result<
    (),
    A5CogError,
>)
    requires
        known@.len() == opts@.len(),
    ensures
        match r {
            Ok(_) => forall|i: int| 0 <= i < known@.len() ==> #[trigger] known@[i],
            Err(e) => exists|i: int| #[trigger]
                first_unknown(opts@, known@, i) && is_invalid(
                    e,
                    unknown_key_text(provider@, opts@[i].0@),
                ),
        },
{
    let mut i: usize = 0;
    while i < opts.len()
        invariant
            known@.len() == opts@.len(),
            i <= opts@.len(),
            forall|k: int| 0 <= k < i ==> #[trigger] known@[k],
        decreases opts@.len() - i,
    {
        if !known[i] {
            assert(first_unknown(opts@, known@, i as int));
            return Err(unknown_key(provider, opts[i].0.as_str()));
        }
        i = i + 1;
    }
    Ok(())
}

/// Which options the provider knows.
pub open spec fn known_options(p: Provider, opts: Seq<(String, String)>) -> Seq<bool> {
    Seq::new(opts.len(), |i: int| knows(p, opts[i].0@))
}

/// Refuses the first option that the provider does not know.
pub fn check_opts(p: Provider, opts: &StoreOpts) -> (r: Result<(), A5CogError>)
    ensures
        match r {
            Ok(_) => forall|i: int| 0 <= i < opts@.len() ==> knows(p, (#[trigger] opts@[i]).0@),
            Err(e) => exists|i: int| #[trigger]
                first_unknown(opts@, known_options(p, opts@), i) && is_invalid(
                    e,
                    unknown_key_text(provider_name(p), opts@[i].0@),
                ),
        },
{
    let mut known: Vec<bool> = Vec::new();
    for i in 0..opts.len()
        invariant
            known@.len() == i,
            forall|k: int| 0 <= k < i ==> #[trigger] known@[k] == knows(p, opts@[k].0@),
    {
        known.push(provider_knows(p, opts[i].0.as_str()));
    }
    assert(known@ =~= known_options(p, opts@));
    let r = check_known(provider_label(p), opts, &known);
    assert(r is Ok ==> forall|i: int|
        0 <= i < opts@.len() ==> knows(p, (#[trigger] opts@[i]).0@)) by {
        if r is Ok {
            assert forall|i: int| 0 <= i < opts@.len() implies knows(
                p,
                (#[trigger] opts@[i]).0@,
            ) by {
                assert(known@[i]);
            }
        }
    }
    r
}

/// Where an object of a store is.
pub struct Place {
    /// Its URL as it is shown.
    pub url: String,
    /// The URL up to its path.
    pub base: String,
    /// The path within the store.
    pub path: String,
}

/// A source that was understood.
pub enum Source {
    /// A path of the local file system.
    Local,
    /// A `file://` URL, with the path that it names.
    FileUrl(String),
    /// An object of a store.
    Remote(Provider, Place),
}

/// The place that a URL names, where its path within the store is `path`.
pub open spec fn is_place(u: Url, path: Seq<char>, p: Place) -> bool {
    p.url@ == shown_url(u) && p.base@ == url_origin(u) && p.path@ == path
}

/// What a URL resolves to, given the store that it belongs to: its provider,
/// where that takes options; none for a file, which takes none; or an error.
pub fn resolve_scheme(scheme: &Result<Scheme, String>, shown: &str) -> (r: Result<
    Option<Provider>,
    A5CogError,
>)
    ensures
        match scheme {
            Err(m) => r matches Err(e) && is_invalid(
                e,
                "unsupported source URL "@ + shown@ + ": "@ + m@,
            ),
            Ok(Scheme::S3) => r matches Ok(Some(Provider::S3)),
            Ok(Scheme::Gcs) => r matches Ok(Some(Provider::Gcs)),
            Ok(Scheme::Azure) => r matches Ok(Some(Provider::Azure)),
            Ok(Scheme::Http) => r matches Ok(Some(Provider::Http)),
            Ok(Scheme::File) => r matches Ok(None),
            Ok(Scheme::Other(t)) => r matches Err(e) && is_unsupported(
                e,
                "source URL scheme "@ + t@ + " is not supported ("@ + shown@ + ")"@,
            ),
        },
{
    match scheme {
        Err(m) => {
            let head = join3("unsupported source URL ", shown, ": ");
            Err(A5CogError::Invalid(join2(head.as_str(), m.as_str())))
        },
        Ok(Scheme::S3) => Ok(Some(Provider::S3)),
        Ok(Scheme::Gcs) => Ok(Some(Provider::Gcs)),
        Ok(Scheme::Azure) => Ok(Some(Provider::Azure)),
        Ok(Scheme::Http) => Ok(Some(Provider::Http)),
        Ok(Scheme::File) => Ok(None),
        Ok(Scheme::Other(t)) => Err(
            A5CogError::Unsupported(
                join5("source URL scheme ", t.as_str(), " is not supported (", shown, ")"),
            ),
        ),
    }
}

/// The source is a URL with a scheme of more than one letter; one letter is a
/// drive of a local path.
pub open spec fn remote_url(src: Seq<char>) -> Option<Url> {
    match parsed_url(src) {
        Some(u) => if scheme_text(u).len() > 1 {
            Some(u)
        } else {
            None
        },
        None => None,
    }
}

/// What a source is, with its options checked: a local path and a `file://` URL
/// take none, the others take those that their provider knows.
pub open spec fn resolved(
    src: Seq<char>,
    opts: Seq<(String, String)>,
    r: Result<Source, A5CogError>,
) -> bool {
    match remote_url(src) {
        None => if opts.len() == 0 {
            r matches Ok(Source::Local)
        } else {
            r matches Err(e) && is_invalid(e, rejected_text("local path"@, opts[0].0@))
        },
        Some(u) => match store_scheme(u) {
            Err(m) => r matches Err(e) && is_invalid(
                e,
                "unsupported source URL "@ + shown_url(u) + ": "@ + m,
            ),
            Ok((SchemeText::Other(t), _)) => r matches Err(e) && is_unsupported(
                e,
                "source URL scheme "@ + t + " is not supported ("@ + shown_url(u) + ")"@,
            ),
            Ok((SchemeText::File, path)) => if opts.len() == 0 {
                r matches Ok(Source::FileUrl(p)) && p@ == path
            } else {
                r matches Err(e) && is_invalid(e, rejected_text("file://"@, opts[0].0@))
            },
            Ok((SchemeText::S3, path)) => options_resolved(Provider::S3, u, path, opts, r),
            Ok((SchemeText::Gcs, path)) => options_resolved(Provider::Gcs, u, path, opts, r),
            Ok((SchemeText::Azure, path)) => options_resolved(Provider::Azure, u, path, opts, r),
            Ok((SchemeText::Http, path)) => options_resolved(Provider::Http, u, path, opts, r),
        },
    }
}

/// The provider with the place, or the error for the first option that the provider
/// does not know.
pub open spec fn options_resolved(
    p: Provider,
    u: Url,
    path: Seq<char>,
    opts: Seq<(String, String)>,
    r: Result<Source, A5CogError>,
) -> bool {
    match r {
        Ok(s) => {
            &&& s matches Source::Remote(q, place) && q == p && is_place(u, path, place)
            &&& forall|i: int| 0 <= i < opts.len() ==> knows(p, (#[trigger] opts[i]).0@)
        },
        Err(e) => exists|i: int| #[trigger]
            first_unknown(opts, known_options(p, opts), i) && is_invalid(
                e,
                unknown_key_text(provider_name(p), opts[i].0@),
            ),
    }
}

/// Whether the scheme of a URL makes it remote; one letter is a drive of a local
/// path.
pub fn is_remote_scheme(scheme: &str) -> (r: bool)
    ensures
        r == (scheme@.len() > 1),
{
    let letters = to_chars(scheme);
    letters.len() > 1
}

fn find_remote(src: &str) -> (r: Option<Url>)
    ensures
        r == remote_url(src@),
{
    let u = parse_url(src)?;
    let s = url_scheme(&u);
    if is_remote_scheme(s.as_str()) {
        Some(u)
    } else {
        None
    }
}

/// What a source is and where, with its options checked.
///
/// Anything that parses as a URL with a scheme of more than one letter is
/// remote; everything else is a local path.
pub fn resolve_source(src: &str, opts: &StoreOpts) -> (r: Result<Source, A5CogError>)
    ensures
        resolved(src@, opts@, r),
{
    let u = match find_remote(src) {
        Some(u) => u,
        None => {
            return match reject_opts("local path", opts) {
                Ok(_) => Ok(Source::Local),
                Err(e) => Err(e),
            };
        },
    };
    let shown = url_text(&u);
    let (scheme, path): (Result<Scheme, String>, String) = match parse_scheme(&u) {
        Ok((s, p)) => (Ok(s), p),
        Err(e) => (Err(e), String::new()),
    };
    match resolve_scheme(&scheme, shown.as_str()) {
        Err(e) => Err(e),
        Ok(None) => match reject_opts("file://", opts) {
            Ok(_) => Ok(Source::FileUrl(path)),
            Err(e) => Err(e),
        },
        Ok(Some(p)) => match check_opts(p, opts) {
            Ok(_) => Ok(Source::Remote(p, Place { url: shown, base: url_base(&u), path })),
            Err(e) => Err(e),
        },
    }
}

/// The host of a source that is a URL, empty where it has none.
pub fn source_host(src: &str) -> (r: String)
    ensures
        r@ == (match remote_url(src@) {
            Some(u) => match host_text(u) {
                Some(h) => h,
                None => Seq::empty(),
            },
            None => Seq::empty(),
        }),
{
    match find_remote(src) {
        None => String::new(),
        Some(u) => match url_host(&u) {
            Some(h) => h,
            None => String::new(),
        },
    }
}

/// An option given with a local path is refused, whatever it is.
pub proof fn local_paths_take_no_options(
    src: Seq<char>,
    opts: Seq<(String, String)>,
    r: Result<Source, A5CogError>,
)
    requires
        remote_url(src) is None,
        opts.len() > 0,
        resolved(src, opts, r),
    ensures
        r is Err,
{
}

/// No source is resolved with an option that its provider does not know.
pub proof fn unknown_options_are_refused(
    src: Seq<char>,
    opts: Seq<(String, String)>,
    p: Provider,
    i: int,
    r: Result<Source, A5CogError>,
)
    requires
        resolved(src, opts, r),
        0 <= i < opts.len(),
        !knows(p, opts[i].0@),
    ensures
        !(r matches Ok(Source::Remote(q, _)) && q == p),
{
    assert(opts[i] == opts[i]);
}

// ---------------------------------------------------------------------------
// describing a store

/// The parts of a text between the characters `c`.
pub open spec fn split_on(s: Seq<char>, c: char) -> Seq<Seq<char>>
    decreases s.len(),
{
    if s.len() == 0 {
        seq![Seq::<char>::empty()]
    } else {
        let p = split_on(s.drop_last(), c);
        if s.last() == c {
            p.push(Seq::empty())
        } else {
            p.update(p.len() - 1, p.last().push(s.last()))
        }
    }
}

/// The texts of strings.
pub open spec fn texts(v: Seq<String>) -> Seq<Seq<char>> {
    Seq::new(v.len(), |i: int| v[i]@)
}

proof fn lemma_split_not_empty(s: Seq<char>, c: char)
    ensures
        split_on(s, c).len() >= 1,
    decreases s.len(),
{
    if s.len() > 0 {
        lemma_split_not_empty(s.drop_last(), c);
    }
}

fn split_text(s: &str, c: char) -> (r: Vec<String>)
    ensures
        texts(r@) == split_on(s@, c),
{
    let v = to_chars(s);
    let mut parts: Vec<String> = Vec::new();
    parts.push(String::new());
    assert(s@.take(0) =~= Seq::empty());
    assert(texts(parts@) =~= split_on(s@.take(0), c));
    for i in 0..v.len()
        invariant
            v@ == s@,
            parts@.len() >= 1,
            texts(parts@) == split_on(s@.take(i as int), c),
    {
        let ch = v[i];
        let ghost before = parts@;
        assert(s@.take(i + 1).drop_last() =~= s@.take(i as int));
        if ch == c {
            parts.push(String::new());
            assert(texts(parts@) =~= texts(before).push(Seq::empty()));
        } else {
            let n: usize = parts.len();
            let mut last = parts[n - 1].clone();
            push_char(&mut last, ch);
            parts.set(n - 1, last);
            assert(texts(before).last() == before[n - 1]@);
            assert(texts(parts@) =~= texts(before).update(
                n - 1,
                texts(before).last().push(ch),
            ));
        }
    }
    assert(s@.take(s@.len() as int) =~= s@);
    parts
}

/// The region that an S3 host name spells: `s3.<region>.amazonaws.com`, perhaps
/// behind a bucket name.
pub open spec fn url_region(host: Seq<char>) -> Option<Seq<char>> {
    let p = split_on(host, '.');
    if p.len() == 4 && p[0] == "s3"@ && p[2] == "amazonaws"@ && p[3] == "com"@ {
        Some(p[1])
    } else if p.len() == 5 && p[1] == "s3"@ && p[3] == "amazonaws"@ && p[4] == "com"@ {
        Some(p[2])
    } else {
        None
    }
}

/// The region that an S3 host name spells.
pub fn s3_url_region(host: &str) -> (r: Option<String>)
    ensures
        match url_region(host@) {
            Some(t) => r matches Some(s) && s@ == t,
            None => r is None,
        },
{
    let p = split_text(host, '.');
    let ghost q = split_on(host@, '.');
    assert(q == texts(p@));
    if p.len() == 4 {
        if str_eq(p[0].as_str(), "s3") && str_eq(p[2].as_str(), "amazonaws") && str_eq(
            p[3].as_str(),
            "com",
        ) {
            return Some(p[1].clone());
        }
    }
    if p.len() == 5 {
        if str_eq(p[1].as_str(), "s3") && str_eq(p[3].as_str(), "amazonaws") && str_eq(
            p[4].as_str(),
            "com",
        ) {
            return Some(p[2].clone());
        }
    }
    None
}

/// The settings of a store after environment and options were applied, empty
/// where one is not set.
pub enum StoreConfig {
    S3 {
        region: String,
        endpoint: String,
        skip_signature: String,
        virtual_hosted_style_request: String,
        access_key_id: String,
        token: String,
    },
    Gcs {
        skip_signature: String,
        service_account: String,
        service_account_key: String,
        application_credentials: String,
    },
    Azure {
        account: String,
        skip_signature: String,
        access_key: String,
        sas_key: String,
        token: String,
    },
    Http,
    Local,
}

/// `true` or `false`.
pub open spec fn flag_text(b: bool) -> Seq<char> {
    if b {
        "true"@
    } else {
        "false"@
    }
}

/// The description of a store, as pairs of a name and a value.
pub open spec fn description(c: StoreConfig, host: Seq<char>) -> Seq<(Seq<char>, Seq<char>)> {
    match c {
        StoreConfig::S3 {
            region,
            endpoint,
            skip_signature,
            virtual_hosted_style_request,
            access_key_id,
            token,
        } => seq![
            ("provider"@, "s3"@),
            ("host"@, host),
            (
                "region"@,
                match url_region(host) {
                    Some(t) => t,
                    None => region@,
                },
            ),
            ("endpoint"@, endpoint@),
            ("skip_signature"@, skip_signature@),
            ("virtual_hosted_style_request"@, virtual_hosted_style_request@),
            ("static_credentials"@, flag_text(access_key_id@.len() > 0)),
            ("session_token"@, flag_text(token@.len() > 0)),
        ],
        StoreConfig::Gcs {
            skip_signature,
            service_account,
            service_account_key,
            application_credentials,
        } => seq![
            ("provider"@, "gcs"@),
            ("host"@, host),
            ("skip_signature"@, skip_signature@),
            (
                "static_credentials"@,
                flag_text(
                    service_account@.len() > 0 || service_account_key@.len() > 0
                        || application_credentials@.len() > 0,
                ),
            ),
        ],
        StoreConfig::Azure { account, skip_signature, access_key, sas_key, token } => seq![
            ("provider"@, "azure"@),
            ("host"@, host),
            ("account"@, account@),
            ("skip_signature"@, skip_signature@),
            (
                "static_credentials"@,
                flag_text(access_key@.len() > 0 || sas_key@.len() > 0 || token@.len() > 0),
            ),
        ],
        StoreConfig::Http => seq![("provider"@, "http"@), ("host"@, host)],
        StoreConfig::Local => seq![("provider"@, "local"@)],
    }
}

/// The texts of pairs.
pub open spec fn pair_texts(v: Seq<(String, String)>) -> Seq<(Seq<char>, Seq<char>)> {
    Seq::new(v.len(), |i: int| (v[i].0@, v[i].1@))
}

fn is_set(s: &String) -> (r: bool)
    ensures
        r == (s@.len() > 0),
{
    let v = to_chars(s.as_str());
    v.len() > 0
}

fn flag(b: bool) -> (r: String)
    ensures
        r@ == flag_text(b),
{
    if b {
        "true".to_owned()
    } else {
        "false".to_owned()
    }
}

/// Adds a pair to a description.
fn add_pair(out: &mut Vec<(String, String)>, name: &str, value: String)
    ensures
        pair_texts(final(out)@) == pair_texts(old(out)@).push((name@, value@)),
{
    let ghost v = value@;
    out.push((name.to_owned(), value));
    assert(pair_texts(out@) =~= pair_texts(old(out)@).push((name@, v)));
}

/// Describes a store. Of credentials it tells only whether any are set.
pub fn describe(c: &StoreConfig, host: &str) -> (r: Vec<(String, String)>)
    ensures
        pair_texts(r@) == description(*c, host@),
{
    let mut out: Vec<(String, String)> = Vec::new();
    assert(pair_texts(out@) =~= Seq::empty());
    match c {
        StoreConfig::S3 {
            region,
            endpoint,
            skip_signature,
            virtual_hosted_style_request,
            access_key_id,
            token,
        } => {
            let shown_region: String = match s3_url_region(host) {
                Some(t) => t,
                None => region.clone(),
            };
            add_pair(&mut out, "provider", "s3".to_owned());
            add_pair(&mut out, "host", host.to_owned());
            add_pair(&mut out, "region", shown_region);
            add_pair(&mut out, "endpoint", endpoint.clone());
            add_pair(&mut out, "skip_signature", skip_signature.clone());
            add_pair(
                &mut out,
                "virtual_hosted_style_request",
                virtual_hosted_style_request.clone(),
            );
            add_pair(&mut out, "static_credentials", flag(is_set(access_key_id)));
            add_pair(&mut out, "session_token", flag(is_set(token)));
        },
        StoreConfig::Gcs {
            skip_signature,
            service_account,
            service_account_key,
            application_credentials,
        } => {
            add_pair(&mut out, "provider", "gcs".to_owned());
            add_pair(&mut out, "host", host.to_owned());
            add_pair(&mut out, "skip_signature", skip_signature.clone());
            let creds: bool = is_set(service_account) || is_set(service_account_key) || is_set(
                application_credentials,
            );
            add_pair(&mut out, "static_credentials", flag(creds));
        },
        StoreConfig::Azure { account, skip_signature, access_key, sas_key, token } => {
            add_pair(&mut out, "provider", "azure".to_owned());
            add_pair(&mut out, "host", host.to_owned());
            add_pair(&mut out, "account", account.clone());
            add_pair(&mut out, "skip_signature", skip_signature.clone());
            let creds: bool = is_set(access_key) || is_set(sas_key) || is_set(token);
            add_pair(&mut out, "static_credentials", flag(creds));
        },
        StoreConfig::Http => {
            add_pair(&mut out, "provider", "http".to_owned());
            add_pair(&mut out, "host", host.to_owned());
        },
        StoreConfig::Local => {
            add_pair(&mut out, "provider", "local".to_owned());
        },
    }
    assert(pair_texts(out@) =~= description(*c, host@));
    out
}

/// The description of a store does not depend on its credentials beyond
/// whether they are set.
pub proof fn descriptions_hide_credentials(a: StoreConfig, b: StoreConfig, host: Seq<char>)
    requires
        match (a, b) {
            (
                StoreConfig::S3 {
                    region: r1,
                    endpoint: e1,
                    skip_signature: s1,
                    virtual_hosted_style_request: v1,
                    access_key_id: k1,
                    token: t1,
                },
                StoreConfig::S3 {
                    region: r2,
                    endpoint: e2,
                    skip_signature: s2,
                    virtual_hosted_style_request: v2,
                    access_key_id: k2,
                    token: t2,
                },
            ) => r1@ == r2@ && e1@ == e2@ && s1@ == s2@ && v1@ == v2@ && (k1@.len() > 0) == (
            k2@.len() > 0) && (t1@.len() > 0) == (t2@.len() > 0),
            (
                StoreConfig::Gcs {
                    skip_signature: s1,
                    service_account: a1,
                    service_account_key: b1,
                    application_credentials: c1,
                },
                StoreConfig::Gcs {
                    skip_signature: s2,
                    service_account: a2,
                    service_account_key: b2,
                    application_credentials: c2,
                },
            ) => s1@ == s2@ && (a1@.len() > 0) == (a2@.len() > 0) && (b1@.len() > 0) == (b2@.len()
                > 0) && (c1@.len() > 0) == (c2@.len() > 0),
            (
                StoreConfig::Azure {
                    account: n1,
                    skip_signature: s1,
                    access_key: a1,
                    sas_key: b1,
                    token: c1,
                },
                StoreConfig::Azure {
                    account: n2,
                    skip_signature: s2,
                    access_key: a2,
                    sas_key: b2,
                    token: c2,
                },
            ) => n1@ == n2@ && s1@ == s2@ && (a1@.len() > 0) == (a2@.len() > 0) && (b1@.len() > 0)
                == (b2@.len() > 0) && (c1@.len() > 0) == (c2@.len() > 0),
            _ => false,
        },
    ensures
        description(a, host) == description(b, host),
{
}

// ---------------------------------------------------------------------------
// laws

/// An environment variable says yes exactly where, without the blanks around it and in
/// whatever case, it reads yes, true, on or 1.
pub proof fn yes_is_said_in_four_words(s: Seq<char>)
    ensures
        is_truthy(s) <==> upper(trimmed(s)) == "YES"@ || upper(trimmed(s)) == "TRUE"@ || upper(
            trimmed(s),
        ) == "ON"@ || upper(trimmed(s)) == "1"@,
{
}

/// A key is compared without blanks around it and in small letters, its value is taken
/// as it stands.
pub proof fn keys_are_compared_in_small_letters(keys: Seq<String>, values: Seq<String>, i: int)
    ensures
        option_of(keys, values, i).0 == lower(trimmed(keys[i]@)),
        option_of(keys, values, i).1 == values[i]@,
{
}

/// A source that belongs to a store is opened with that store's own provider, at the
/// path that is left within it; a file URL as a file, and what is no URL, or has a
/// scheme of one letter, as a local path.
pub proof fn sources_go_to_their_own_store(
    src: Seq<char>,
    opts: Seq<(String, String)>,
    r: Result<Source, A5CogError>,
)
    requires
        resolved(src, opts, r),
    ensures
        (parsed_url(src) is None || scheme_text(parsed_url(src)->Some_0).len() <= 1) && r is Ok ==> (
        r matches Ok(Source::Local)),
        parsed_url(src) matches Some(u) ==> scheme_text(u).len() > 1 ==> (store_scheme(u) matches Ok(
            (k, path),
        ) ==> (r matches Ok(s) ==> match k {
            SchemeText::S3 => s matches Source::Remote(Provider::S3, at) && at.path@ == path && at.url@
                == shown_url(u) && at.base@ == url_origin(u),
            SchemeText::Gcs => s matches Source::Remote(Provider::Gcs, at) && at.path@ == path
                && at.url@ == shown_url(u) && at.base@ == url_origin(u),
            SchemeText::Azure => s matches Source::Remote(Provider::Azure, at) && at.path@ == path
                && at.url@ == shown_url(u) && at.base@ == url_origin(u),
            SchemeText::Http => s matches Source::Remote(Provider::Http, at) && at.path@ == path
                && at.url@ == shown_url(u) && at.base@ == url_origin(u),
            SchemeText::File => s matches Source::FileUrl(p) && p@ == path,
            SchemeText::Other(_) => false,
        })),
        parsed_url(src) matches Some(u) ==> scheme_text(u).len() > 1 && store_scheme(u) is Err ==> (
        r matches Err(e) && e is Invalid),
{
}

/// A remote source is refused exactly for an option that its own provider does not know.
pub proof fn options_are_checked_by_the_own_provider(
    src: Seq<char>,
    opts: Seq<(String, String)>,
    r: Result<Source, A5CogError>,
    u: Url,
    i: int,
)
    requires
        resolved(src, opts, r),
        parsed_url(src) == Some(u),
        scheme_text(u).len() > 1,
        store_scheme(u) is Ok,
        0 <= i < opts.len(),
    ensures
        store_scheme(u)->Ok_0.0 is S3 && !s3_key(opts[i].0@) ==> r is Err,
        store_scheme(u)->Ok_0.0 is Gcs && !gcs_key(opts[i].0@) ==> r is Err,
        store_scheme(u)->Ok_0.0 is Azure && !azure_key(opts[i].0@) ==> r is Err,
        store_scheme(u)->Ok_0.0 is Http && !http_key(opts[i].0@) ==> r is Err,
        store_scheme(u)->Ok_0.0 is File ==> r is Err,
        store_scheme(u)->Ok_0.0 is S3 && (forall|k: int|
            0 <= k < opts.len() ==> s3_key((#[trigger] opts[k]).0@)) ==> r is Ok,
        store_scheme(u)->Ok_0.0 is Gcs && (forall|k: int|
            0 <= k < opts.len() ==> gcs_key((#[trigger] opts[k]).0@)) ==> r is Ok,
        store_scheme(u)->Ok_0.0 is Azure && (forall|k: int|
            0 <= k < opts.len() ==> azure_key((#[trigger] opts[k]).0@)) ==> r is Ok,
        store_scheme(u)->Ok_0.0 is Http && (forall|k: int|
            0 <= k < opts.len() ==> http_key((#[trigger] opts[k]).0@)) ==> r is Ok,
{
    assert(opts[i] == opts[i]);
    if r is Err {
        let p = match store_scheme(u)->Ok_0.0 {
            SchemeText::S3 => Provider::S3,
            SchemeText::Gcs => Provider::Gcs,
            SchemeText::Azure => Provider::Azure,
            _ => Provider::Http,
        };
        if store_scheme(u)->Ok_0.0 is S3 || store_scheme(u)->Ok_0.0 is Gcs || store_scheme(
            u,
        )->Ok_0.0 is Azure || store_scheme(u)->Ok_0.0 is Http {
            let j = choose|j: int| #[trigger] first_unknown(opts, known_options(p, opts), j);
            assert(!known_options(p, opts)[j]);
            assert(!knows(p, opts[j].0@));
        }
    }
}

proof fn lemma_split_word(a: Seq<char>, w: Seq<char>, c: char)
    requires
        forall|i: int| 0 <= i < w.len() ==> #[trigger] w[i] != c,
    ensures
        split_on(a + w, c) == split_on(a, c).update(
            split_on(a, c).len() - 1,
            split_on(a, c).last() + w,
        ),
    decreases w.len(),
{
    lemma_split_not_empty(a, c);
    let p = split_on(a, c);
    if w.len() == 0 {
        assert(a + w =~= a);
        assert(p.last() + w =~= p.last());
        assert(p.update(p.len() - 1, p.last()) =~= p);
    } else {
        let front = w.drop_last();
        assert forall|i: int| 0 <= i < front.len() implies #[trigger] front[i] != c by {
            assert(w[i] != c);
        }
        lemma_split_word(a, front, c);
        assert((a + w).drop_last() =~= a + front);
        assert(w[w.len() - 1] != c);
        let q = split_on(a + front, c);
        assert((p.last() + front).push(w.last()) =~= p.last() + w);
        assert(q.update(q.len() - 1, q.last().push(w.last())) =~= p.update(
            p.len() - 1,
            p.last() + w,
        ));
    }
}

/// Words without the separator, with one between each two, are what a text is split
/// into.
pub proof fn splitting_takes_words_apart(a: Seq<char>, w: Seq<char>, c: char)
    requires
        forall|i: int| 0 <= i < w.len() ==> #[trigger] w[i] != c,
    ensures
        split_on(w, c) == seq![w],
        split_on(a + seq![c] + w, c) == split_on(a, c).push(w),
{
    let none = Seq::<char>::empty();
    lemma_split_word(none, w, c);
    assert(none + w =~= w);
    assert(split_on(none, c) =~= seq![none]);
    assert(seq![none].update(0, none + w) =~= seq![w]);
    let b = a + seq![c];
    assert(b.drop_last() =~= a);
    assert(b.last() == c);
    lemma_split_word(b, w, c);
    let p = split_on(a, c);
    assert(split_on(b, c) == p.push(none));
    assert(p.push(none).update(p.len() as int, none + w) =~= p.push(w));
}

proof fn lemma_host_words()
    ensures
        forall|i: int| 0 <= i < "s3"@.len() ==> #[trigger] "s3"@[i] != '.',
        forall|i: int| 0 <= i < "amazonaws"@.len() ==> #[trigger] "amazonaws"@[i] != '.',
        forall|i: int| 0 <= i < "com"@.len() ==> #[trigger] "com"@[i] != '.',
        "s3"@.len() == 2,
        "amazonaws"@.len() == 9,
{
    reveal_strlit("s3");
    reveal_strlit("amazonaws");
    reveal_strlit("com");
}

/// The region of an S3 host is the word behind `s3` and before `amazonaws.com`, with or
/// without a bucket in front.
pub proof fn regions_are_spelled_in_the_host(bucket: Seq<char>, region: Seq<char>)
    requires
        forall|i: int| 0 <= i < bucket.len() ==> #[trigger] bucket[i] != '.',
        forall|i: int| 0 <= i < region.len() ==> #[trigger] region[i] != '.',
    ensures
        url_region("s3"@ + seq!['.'] + region + seq!['.'] + "amazonaws"@ + seq!['.'] + "com"@)
            == Some(region),
        url_region(
            bucket + seq!['.'] + "s3"@ + seq!['.'] + region + seq!['.'] + "amazonaws"@ + seq!['.']
                + "com"@,
        ) == Some(region),
        url_region("s3"@ + seq!['.'] + "amazonaws"@ + seq!['.'] + "com"@) is None,
{
    lemma_host_words();
    let dot = seq!['.'];
    let s3 = "s3"@;
    let a = s3 + dot + region;
    splitting_takes_words_apart(s3, s3, '.');
    splitting_takes_words_apart(s3, region, '.');
    splitting_takes_words_apart(a, "amazonaws"@, '.');
    splitting_takes_words_apart(a + dot + "amazonaws"@, "com"@, '.');
    let b = bucket + dot + s3;
    splitting_takes_words_apart(bucket, bucket, '.');
    splitting_takes_words_apart(bucket, s3, '.');
    splitting_takes_words_apart(b, region, '.');
    splitting_takes_words_apart(b + dot + region, "amazonaws"@, '.');
    splitting_takes_words_apart(b + dot + region + dot + "amazonaws"@, "com"@, '.');
    splitting_takes_words_apart(s3, "amazonaws"@, '.');
    splitting_takes_words_apart(s3 + dot + "amazonaws"@, "com"@, '.');
    let p = split_on(b + dot + region + dot + "amazonaws"@ + dot + "com"@, '.');
    assert(p =~= seq![bucket, s3, region, "amazonaws"@, "com"@]);
    let q = split_on(a + dot + "amazonaws"@ + dot + "com"@, '.');
    assert(q =~= seq![s3, region, "amazonaws"@, "com"@]);
}

/// What the description of a store says of its credentials: that there are some exactly
/// where one of the settings that hold them is not empty. It starts with the provider's
/// name.
pub proof fn descriptions_tell_whether_credentials_are_set(c: StoreConfig, host: Seq<char>)
    ensures
        description(c, host).len() > 0,
        description(c, host)[0].0 == "provider"@,
        c is S3 ==> description(c, host)[0].1 == "s3"@,
        c is Gcs ==> description(c, host)[0].1 == "gcs"@,
        c is Azure ==> description(c, host)[0].1 == "azure"@,
        c is Http ==> description(c, host)[0].1 == "http"@,
        c is Local ==> description(c, host)[0].1 == "local"@,
        !(c is Local) ==> description(c, host)[1] == ("host"@, host),
        c matches StoreConfig::S3 {
            region,
            endpoint,
            skip_signature,
            virtual_hosted_style_request,
            access_key_id,
            token,
        } ==> {
            let d = description(c, host);
            &&& d.len() == 8
            &&& url_region(host) is None ==> d[2] == ("region"@, region@)
            &&& url_region(host) matches Some(t) ==> d[2] == ("region"@, t)
            &&& d[3] == ("endpoint"@, endpoint@)
            &&& d[4] == ("skip_signature"@, skip_signature@)
            &&& d[5] == ("virtual_hosted_style_request"@, virtual_hosted_style_request@)
            &&& access_key_id@.len() > 0 ==> d[6] == ("static_credentials"@, "true"@)
            &&& access_key_id@.len() == 0 ==> d[6] == ("static_credentials"@, "false"@)
            &&& token@.len() > 0 ==> d[7] == ("session_token"@, "true"@)
            &&& token@.len() == 0 ==> d[7] == ("session_token"@, "false"@)
        },
        c matches StoreConfig::Gcs {
            skip_signature,
            service_account,
            service_account_key,
            application_credentials,
        } ==> {
            let d = description(c, host);
            &&& d.len() == 4
            &&& d[2] == ("skip_signature"@, skip_signature@)
            &&& service_account@.len() + service_account_key@.len() + application_credentials@.len()
                > 0 ==> d[3] == ("static_credentials"@, "true"@)
            &&& service_account@.len() + service_account_key@.len() + application_credentials@.len()
                == 0 ==> d[3] == ("static_credentials"@, "false"@)
        },
        c matches StoreConfig::Azure { account, skip_signature, access_key, sas_key, token } ==> {
            let d = description(c, host);
            &&& d.len() == 5
            &&& d[2] == ("account"@, account@)
            &&& d[3] == ("skip_signature"@, skip_signature@)
            &&& access_key@.len() + sas_key@.len() + token@.len() > 0 ==> d[4] == (
                "static_credentials"@,
                "true"@,
            )
            &&& access_key@.len() + sas_key@.len() + token@.len() == 0 ==> d[4] == (
                "static_credentials"@,
                "false"@,
            )
        },
{
}

/// Providers are named in messages by their own names, and each knows its own options.
pub proof fn providers_have_their_names_and_options(p: Provider, key: Seq<char>)
    ensures
        p == Provider::S3 ==> provider_name(p) == "S3"@ && knows(p, key) == s3_key(key),
        p == Provider::Gcs ==> provider_name(p) == "GCS"@ && knows(p, key) == gcs_key(key),
        p == Provider::Azure ==> provider_name(p) == "Azure"@ && knows(p, key) == azure_key(key),
        p == Provider::Http ==> provider_name(p) == "HTTP"@ && knows(p, key) == http_key(key),
{
}

/// An option that a provider does not know is reported with its key and the provider's
/// name, one that a local source was given with its key and the kind of source.
pub proof fn refused_options_are_named(provider: Seq<char>, what: Seq<char>, key: Seq<char>)
    ensures
        unknown_key_text(provider, key) == "store_opts: unknown option "@ + (quoted(key) + (
        " for "@ + (provider + (" sources (see object_store's "@ + (provider
            + " config keys)"@))))),
        rejected_text(what, key) == "store_opts: "@ + (quoted(key) + (" was given but "@ + (what
            + " sources take no store options"@))),
{
    assert(unknown_key_text(provider, key) =~= "store_opts: unknown option "@ + (quoted(key) + (
    " for "@ + (provider + (" sources (see object_store's "@ + (provider
        + " config keys)"@))))));
    assert(rejected_text(what, key) =~= "store_opts: "@ + (quoted(key) + (" was given but "@ + (what
        + " sources take no store options"@))));
}

/// The parts with the separator between each two.
pub open spec fn joined_by(parts: Seq<Seq<char>>, c: char) -> Seq<char>
    decreases parts.len(),
{
    if parts.len() == 0 {
        Seq::empty()
    } else if parts.len() == 1 {
        parts[0]
    } else {
        joined_by(parts.drop_last(), c).push(c) + parts.last()
    }
}

/// A text is what its parts give with the separator put back between them, and no part
/// holds the separator.
pub proof fn parts_give_the_text_back(s: Seq<char>, c: char)
    ensures
        joined_by(split_on(s, c), c) == s,
        forall|i: int| 0 <= i < split_on(s, c).len() ==> !(#[trigger] split_on(s, c)[i]).contains(c),
    decreases s.len(),
{
    lemma_split_not_empty(s, c);
    if s.len() > 0 {
        let front = s.drop_last();
        parts_give_the_text_back(front, c);
        lemma_split_not_empty(front, c);
        let p = split_on(front, c);
        let x = s.last();
        assert(s =~= front.push(x));
        if x == c {
            let q = p.push(Seq::empty());
            assert(q.drop_last() =~= p);
            assert(joined_by(q, c) =~= joined_by(p, c).push(c));
        } else {
            let q = p.update(p.len() - 1, p.last().push(x));
            assert(q.drop_last() =~= p.drop_last());
            assert(joined_by(q, c) =~= joined_by(p, c).push(x));
            assert forall|i: int| 0 <= i < q.len() implies !(#[trigger] q[i]).contains(c) by {
                assert(!p[i].contains(c));
                if i == p.len() - 1 && q[i].contains(c) {
                    let k = choose|k: int| 0 <= k < q[i].len() && q[i][k] == c;
                    assert(p[i][k] == c);
                }
            }
        }
    }
}

/// Only the hosts of S3 spell a region: a host that does is `s3`, the region and
/// `amazonaws.com` with dots between them, or that behind a bucket and a dot.
pub proof fn only_hosts_of_s3_spell_a_region(host: Seq<char>, region: Seq<char>)
    requires
        url_region(host) == Some(region),
    ensures
        ({
            let tail = "s3"@.push('.') + region.push('.') + "amazonaws"@.push('.') + "com"@;
            host == tail || exists|bucket: Seq<char>| host == #[trigger] bucket.push('.') + tail
        }),
{
    let p = split_on(host, '.');
    let tail = "s3"@.push('.') + region.push('.') + "amazonaws"@.push('.') + "com"@;
    parts_give_the_text_back(host, '.');
    let p1 = p.drop_last();
    let p2 = p1.drop_last();
    let p3 = p2.drop_last();
    assert(p.len() == 4 || p.len() == 5);
    assert(joined_by(p, '.') == joined_by(p1, '.').push('.') + p.last());
    assert(joined_by(p1, '.') == joined_by(p2, '.').push('.') + p1.last());
    assert(joined_by(p2, '.') == joined_by(p3, '.').push('.') + p2.last());
    if p.len() == 4 {
        assert(joined_by(p3, '.') == p[0]);
        assert(host =~= tail);
    } else {
        let p4 = p3.drop_last();
        assert(joined_by(p3, '.') == joined_by(p4, '.').push('.') + p3.last());
        assert(joined_by(p4, '.') == p[0]);
        assert(host =~= p[0].push('.') + tail);
    }
}

/// A URL of a scheme that no store has is not supported, and a URL of which no store is
/// known is refused with what was said of it.
pub proof fn other_schemes_are_not_supported(
    src: Seq<char>,
    opts: Seq<(String, String)>,
    r: Result<Source, A5CogError>,
    u: Url,
)
    requires
        resolved(src, opts, r),
        parsed_url(src) == Some(u),
        scheme_text(u).len() > 1,
    ensures
        store_scheme(u) matches Ok((SchemeText::Other(t), _)) ==> (r matches Err(e) && e is Unsupported
            && crate::error::error_payload(e) == "source URL scheme "@ + t
            + " is not supported ("@ + shown_url(u) + ")"@),
        store_scheme(u) matches Err(m) ==> (r matches Err(e) && e is Invalid
            && crate::error::error_payload(e) == "unsupported source URL "@ + shown_url(u) + ": "@
            + m),
{
}

/// The first option that is not known is the one that is reported.
pub proof fn the_first_unknown_option_is_reported(
    p: Provider,
    u: Url,
    path: Seq<char>,
    opts: Seq<(String, String)>,
    r: Result<Source, A5CogError>,
    i: int,
)
    requires
        options_resolved(p, u, path, opts, r),
        0 <= i < opts.len(),
        !knows(p, opts[i].0@),
        forall|k: int| 0 <= k < i ==> knows(p, (#[trigger] opts[k]).0@),
    ensures
        r matches Err(e) && e is Invalid && crate::error::error_payload(e) == unknown_key_text(
            provider_name(p),
            opts[i].0@,
        ),
{
    if let Err(e) = r {
        let j = choose|j: int| #[trigger]
            first_unknown(opts, known_options(p, opts), j) && is_invalid(
                e,
                unknown_key_text(provider_name(p), opts[j].0@),
            );
        assert(!known_options(p, opts)[j]);
        assert(!known_options(p, opts)[i]);
        if i < j {
            assert(known_options(p, opts)[i]);
        }
        if j < i {
            assert(knows(p, opts[j].0@));
        }
    } else {
        assert(knows(p, opts[i].0@));
    }
}

} // verus!
