//! The coordinate system of a raster, from its GeoTIFF keys.
//!
//! Numbers of the keys are held as the decimal text that goes into a proj
//! string.

use vstd::prelude::*;

use proj4rs::Proj;

use crate::error::{invalid, is_invalid, is_missing_geokey, is_proj, A5CogError};
use crate::text::{
    ascii, from_chars, is_ascii_text, is_whitespace, join2, join3, lower, str_eq, to_chars,
    to_lower, trim, trim_start, trimmed, trimmed_start, whitespace,
};

verus! {

/// `proj4rs::Proj`: a coordinate system that points can be transformed from and
/// to.
#[verifier::external_type_specification]
#[verifier::external_body]
pub struct ExProj(proj4rs::Proj);

/// The code that stands for a coordinate system defined by the user.
pub const EPSG_USER_DEFINED: u16 = 32767;

/// The keys of a GeoTIFF that describe its coordinate system.
pub struct GeoKeys {
    /// The projected or geographic code.
    pub epsg: Option<u16>,
    pub proj_citation: Option<String>,
    pub geog_citation: Option<String>,
    pub citation: Option<String>,
    pub proj_coord_trans: Option<u16>,
    pub proj_nat_origin_long: Option<String>,
    pub proj_center_long: Option<String>,
    pub proj_false_origin_long: Option<String>,
    pub proj_straight_vert_pole_long: Option<String>,
    pub proj_nat_origin_lat: Option<String>,
    pub proj_center_lat: Option<String>,
    pub proj_false_origin_lat: Option<String>,
    pub proj_false_easting: Option<String>,
    pub proj_false_origin_easting: Option<String>,
    pub proj_false_northing: Option<String>,
    pub proj_false_origin_northing: Option<String>,
    pub proj_scale_at_nat_origin: Option<String>,
    pub proj_std_parallel1: Option<String>,
    pub proj_std_parallel2: Option<String>,
    pub geog_prime_meridian: Option<u16>,
    pub geog_prime_meridian_long: Option<String>,
    pub geog_ellipsoid: Option<u16>,
    pub geog_semi_major_axis: Option<String>,
    pub geog_semi_minor_axis: Option<String>,
    pub geog_inv_flattening: Option<String>,
}

/// The text of an optional key.
pub open spec fn txt(o: Option<String>) -> Option<Seq<char>> {
    match o {
        Some(s) => Some(s@),
        None => None,
    }
}

/// The first of two that is there.
pub open spec fn first_of(a: Option<Seq<char>>, b: Option<Seq<char>>) -> Option<Seq<char>> {
    match a {
        Some(s) => Some(s),
        None => b,
    }
}

/// A tag before a text that is there, nothing otherwise.
pub open spec fn tagged(tag: Seq<char>, v: Option<Seq<char>>) -> Seq<char> {
    match v {
        Some(s) => tag + s,
        None => Seq::empty(),
    }
}

// ---------------------------------------------------------------------------
// ellipsoid and prime meridian

/// The proj name of an ellipsoid code. Codes without one fall back on the axes
/// that the keys carry.
pub open spec fn ellps_name(code: u16) -> Option<Seq<char>> {
    if code == 7001 {
        Some("airy"@)
    } else if code == 7002 {
        Some("mod_airy"@)
    } else if code == 7003 {
        Some("aust_SA"@)
    } else if code == 7004 {
        Some("bessel"@)
    } else if code == 7008 {
        Some("clrk66"@)
    } else if code == 7012 {
        Some("clrk80"@)
    } else if code == 7019 {
        Some("GRS80"@)
    } else if code == 7022 {
        Some("intl"@)
    } else if code == 7030 {
        Some("WGS84"@)
    } else if code == 7035 {
        Some("sphere"@)
    } else if code == 7043 {
        Some("WGS72"@)
    } else {
        None
    }
}

/// The proj name of an ellipsoid code.
pub fn ellps_name_for_epsg(code: u16) -> (r: Option<&'static str>)
    ensures
        match ellps_name(code) {
            Some(n) => r matches Some(s) && s@ == n,
            None => r is None,
        },
{
    match code {
        7001 => Some("airy"),
        7002 => Some("mod_airy"),
        7003 => Some("aust_SA"),
        7004 => Some("bessel"),
        7008 => Some("clrk66"),
        7012 => Some("clrk80"),
        7019 => Some("GRS80"),
        7022 => Some("intl"),
        7030 => Some("WGS84"),
        7035 => Some("sphere"),
        7043 => Some("WGS72"),
        _ => None,
    }
}

/// The ellipsoid part of a proj string: a named one, else the axes, else WGS 84.
pub open spec fn ellipsoid_text(g: GeoKeys) -> Seq<char> {
    let named = match g.geog_ellipsoid {
        Some(code) => ellps_name(code),
        None => None,
    };
    match named {
        Some(n) => "+ellps="@ + n,
        None => match txt(g.geog_semi_major_axis) {
            None => "+ellps=WGS84"@,
            Some(a) => match txt(g.geog_inv_flattening) {
                Some(rf) => "+a="@ + a + " +rf="@ + rf,
                None => match txt(g.geog_semi_minor_axis) {
                    Some(b) => "+a="@ + a + " +b="@ + b,
                    None => "+a="@ + a,
                },
            },
        },
    }
}

/// The ellipsoid part of a proj string.
pub fn ellipsoid_param(g: &GeoKeys) -> (r: String)
    ensures
        r@ == ellipsoid_text(*g),
{
    if let Some(code) = g.geog_ellipsoid {
        if let Some(name) = ellps_name_for_epsg(code) {
            return join2("+ellps=", name);
        }
    }
    match &g.geog_semi_major_axis {
        None => "+ellps=WGS84".to_owned(),
        Some(a) => {
            let head = join2("+a=", a.as_str());
            match &g.geog_inv_flattening {
                Some(rf) => join3(head.as_str(), " +rf=", rf.as_str()),
                None => match &g.geog_semi_minor_axis {
                    Some(b) => join3(head.as_str(), " +b=", b.as_str()),
                    None => head,
                },
            }
        },
    }
}

/// The proj name of a prime meridian code other than Greenwich.
pub open spec fn meridian_name(code: u16) -> Option<Seq<char>> {
    if code == 8902 {
        Some("lisbon"@)
    } else if code == 8903 {
        Some("paris"@)
    } else if code == 8904 {
        Some("bogota"@)
    } else if code == 8905 {
        Some("madrid"@)
    } else if code == 8906 {
        Some("rome"@)
    } else if code == 8907 {
        Some("bern"@)
    } else if code == 8908 {
        Some("jakarta"@)
    } else if code == 8909 {
        Some("ferro"@)
    } else if code == 8910 {
        Some("brussels"@)
    } else if code == 8911 {
        Some("stockholm"@)
    } else if code == 8912 {
        Some("athens"@)
    } else if code == 8913 {
        Some("oslo"@)
    } else {
        None
    }
}

/// The decimal text of zero, with or without a sign.
pub open spec fn is_zero_text(s: Seq<char>) -> bool {
    s == "0"@ || s == "-0"@
}

/// The prime meridian part of a proj string: nothing for Greenwich (code 8901),
/// a name for the other codes, else the longitude unless it is zero.
pub open spec fn meridian_text(g: GeoKeys) -> Option<Seq<char>> {
    if g.geog_prime_meridian == Some(8901u16) {
        None
    } else {
        let named = match g.geog_prime_meridian {
            Some(code) => meridian_name(code),
            None => None,
        };
        match named {
            Some(n) => Some("+pm="@ + n),
            None => match txt(g.geog_prime_meridian_long) {
                Some(d) => if is_zero_text(d) {
                    None
                } else {
                    Some("+pm="@ + d)
                },
                None => None,
            },
        }
    }
}

fn meridian_name_for(code: u16) -> (r: Option<&'static str>)
    ensures
        match meridian_name(code) {
            Some(n) => r matches Some(s) && s@ == n,
            None => r is None,
        },
{
    match code {
        8902 => Some("lisbon"),
        8903 => Some("paris"),
        8904 => Some("bogota"),
        8905 => Some("madrid"),
        8906 => Some("rome"),
        8907 => Some("bern"),
        8908 => Some("jakarta"),
        8909 => Some("ferro"),
        8910 => Some("brussels"),
        8911 => Some("stockholm"),
        8912 => Some("athens"),
        8913 => Some("oslo"),
        _ => None,
    }
}

/// The prime meridian part of a proj string, none for Greenwich.
pub fn prime_meridian_param(g: &GeoKeys) -> (r: Option<String>)
    ensures
        match meridian_text(*g) {
            Some(t) => r matches Some(s) && s@ == t,
            None => r is None,
        },
{
    if let Some(code) = g.geog_prime_meridian {
        if code == 8901 {
            return None;
        }
        if let Some(n) = meridian_name_for(code) {
            return Some(join2("+pm=", n));
        }
    }
    match &g.geog_prime_meridian_long {
        Some(d) => {
            if str_eq(d.as_str(), "0") || str_eq(d.as_str(), "-0") {
                None
            } else {
                Some(join2("+pm=", d.as_str()))
            }
        },
        None => None,
    }
}

// ---------------------------------------------------------------------------
// proj string from keys

/// A scale factor, one where the key is absent.
pub open spec fn scale_text(g: GeoKeys) -> Seq<char> {
    match txt(g.proj_scale_at_nat_origin) {
        Some(k) => " +k_0="@ + k,
        None => " +k_0="@ + "1"@,
    }
}

/// Both standard parallels, where both are there.
pub open spec fn parallels_text(g: GeoKeys) -> Option<Seq<char>> {
    match (txt(g.proj_std_parallel1), txt(g.proj_std_parallel2)) {
        (Some(p1), Some(p2)) => Some(" +lat_1="@ + p1 + " +lat_2="@ + p2),
        _ => None,
    }
}

/// The latitude of true scale, where the first standard parallel is there.
pub open spec fn true_scale_text(g: GeoKeys) -> Seq<char> {
    tagged(" +lat_ts="@, txt(g.proj_std_parallel1))
}

/// The latitude of true scale, else the scale factor.
pub open spec fn true_scale_or_scale(g: GeoKeys) -> Seq<char> {
    if g.proj_std_parallel1 is Some {
        true_scale_text(g)
    } else {
        scale_text(g)
    }
}

/// A projection by its proj name, with parameters.
pub open spec fn with_extras(name: Seq<char>, extras: Option<Seq<char>>) -> Option<
    (Seq<char>, Seq<char>),
> {
    match extras {
        Some(e) => Some((name, e)),
        None => None,
    }
}

/// The proj name of a coordinate transformation, and the parameters of its own;
/// none where it is not known or a parameter that it needs is absent.
pub open spec fn projection_of(g: GeoKeys, ct: u16) -> Option<(Seq<char>, Seq<char>)> {
    if ct == 1 {
        Some(("tmerc"@, scale_text(g)))
    } else if ct == 7 {
        Some(("merc"@, true_scale_or_scale(g)))
    } else if ct == 8 {
        with_extras("lcc"@, parallels_text(g))
    } else if ct == 9 {
        Some(("lcc"@, scale_text(g)))
    } else if ct == 10 {
        Some(("laea"@, Seq::empty()))
    } else if ct == 11 {
        with_extras("aea"@, parallels_text(g))
    } else if ct == 12 {
        Some(("aeqd"@, Seq::empty()))
    } else if ct == 13 {
        with_extras("eqdc"@, parallels_text(g))
    } else if ct == 14 {
        Some(("stere"@, scale_text(g)))
    } else if ct == 15 {
        Some(("stere"@, true_scale_or_scale(g)))
    } else if ct == 16 {
        Some(("sterea"@, scale_text(g)))
    } else if ct == 17 {
        Some(("eqc"@, true_scale_text(g)))
    } else if ct == 19 {
        Some(("gnom"@, Seq::empty()))
    } else if ct == 21 {
        Some(("ortho"@, Seq::empty()))
    } else if ct == 24 {
        Some(("sinu"@, Seq::empty()))
    } else if ct == 28 {
        Some(("cea"@, true_scale_text(g)))
    } else {
        None
    }
}

/// The central meridian.
pub open spec fn lon_0(g: GeoKeys) -> Option<Seq<char>> {
    first_of(
        first_of(
            first_of(txt(g.proj_nat_origin_long), txt(g.proj_center_long)),
            txt(g.proj_false_origin_long),
        ),
        txt(g.proj_straight_vert_pole_long),
    )
}

/// The latitude of origin.
pub open spec fn lat_0(g: GeoKeys) -> Option<Seq<char>> {
    first_of(
        first_of(txt(g.proj_nat_origin_lat), txt(g.proj_center_lat)),
        txt(g.proj_false_origin_lat),
    )
}

/// The false easting.
pub open spec fn x_0(g: GeoKeys) -> Option<Seq<char>> {
    first_of(txt(g.proj_false_easting), txt(g.proj_false_origin_easting))
}

/// The false northing.
pub open spec fn y_0(g: GeoKeys) -> Option<Seq<char>> {
    first_of(txt(g.proj_false_northing), txt(g.proj_false_origin_northing))
}

/// The proj string that the keys describe, none where the projection is not
/// known or lacks a parameter.
pub open spec fn proj_string(g: GeoKeys) -> Option<Seq<char>> {
    match g.proj_coord_trans {
        None => None,
        Some(ct) => match projection_of(g, ct) {
            None => None,
            Some((name, extras)) => Some(
                "+proj="@ + name + tagged(" +lon_0="@, lon_0(g)) + tagged(" +lat_0="@, lat_0(g))
                    + tagged(" +x_0="@, x_0(g)) + tagged(" +y_0="@, y_0(g)) + extras + tagged(
                    " "@,
                    meridian_text(g),
                ) + " "@ + ellipsoid_text(g) + " +no_defs"@,
            ),
        },
    }
}

/// The first of two texts that is there.
fn first_text<'a>(a: &'a Option<String>, b: &'a Option<String>) -> (r: Option<&'a str>)
    ensures
        match first_of(txt(*a), txt(*b)) {
            Some(t) => r matches Some(s) && s@ == t,
            None => r is None,
        },
{
    match a {
        Some(s) => Some(s.as_str()),
        None => match b {
            Some(s) => Some(s.as_str()),
            None => None,
        },
    }
}

fn or_text<'a>(a: Option<&'a str>, b: &'a Option<String>) -> (r: Option<&'a str>)
    ensures
        r == (match a {
            Some(s) => Some(s),
            None => r,
        }),
        a is None ==> match txt(*b) {
            Some(t) => r matches Some(s) && s@ == t,
            None => r is None,
        },
{
    match a {
        Some(s) => Some(s),
        None => match b {
            Some(s) => Some(s.as_str()),
            None => None,
        },
    }
}

/// Appends a tagged text where it is there.
fn append_tagged(s: &mut String, tag: &str, v: Option<&str>)
    ensures
        final(s)@ == old(s)@ + tagged(
            tag@,
            match v {
                Some(t) => Some(t@),
                None => None,
            },
        ),
{
    match v {
        Some(t) => {
            s.append(tag);
            s.append(t);
            assert(s@ =~= old(s)@ + (tag@ + t@));
        },
        None => {
            assert(s@ =~= old(s)@ + Seq::empty());
        },
    }
}

fn scale_param(g: &GeoKeys) -> (r: String)
    ensures
        r@ == scale_text(*g),
{
    match &g.proj_scale_at_nat_origin {
        Some(k) => join2(" +k_0=", k.as_str()),
        None => join2(" +k_0=", "1"),
    }
}

fn parallels_param(g: &GeoKeys) -> (r: Option<String>)
    ensures
        match parallels_text(*g) {
            Some(t) => r matches Some(s) && s@ == t,
            None => r is None,
        },
{
    match (&g.proj_std_parallel1, &g.proj_std_parallel2) {
        (Some(p1), Some(p2)) => {
            let head = join2(" +lat_1=", p1.as_str());
            Some(join3(head.as_str(), " +lat_2=", p2.as_str()))
        },
        _ => None,
    }
}

fn true_scale_param(g: &GeoKeys) -> (r: String)
    ensures
        r@ == true_scale_text(*g),
{
    match &g.proj_std_parallel1 {
        Some(p1) => join2(" +lat_ts=", p1.as_str()),
        None => String::new(),
    }
}

fn true_scale_or_scale_param(g: &GeoKeys) -> (r: String)
    ensures
        r@ == true_scale_or_scale(*g),
{
    if g.proj_std_parallel1.is_some() {
        true_scale_param(g)
    } else {
        scale_param(g)
    }
}

/// The proj name of a coordinate transformation, and the parameters of its own.
fn projection(g: &GeoKeys, ct: u16) -> (r: Option<(&'static str, String)>)
    ensures
        match projection_of(*g, ct) {
            Some((name, extras)) => r matches Some(t) && t.0@ == name && t.1@ == extras,
            None => r is None,
        },
{
    match ct {
        1 => Some(("tmerc", scale_param(g))),
        7 => Some(("merc", true_scale_or_scale_param(g))),
        8 => match parallels_param(g) {
            Some(e) => Some(("lcc", e)),
            None => None,
        },
        9 => Some(("lcc", scale_param(g))),
        10 => Some(("laea", String::new())),
        11 => match parallels_param(g) {
            Some(e) => Some(("aea", e)),
            None => None,
        },
        12 => Some(("aeqd", String::new())),
        13 => match parallels_param(g) {
            Some(e) => Some(("eqdc", e)),
            None => None,
        },
        14 => Some(("stere", scale_param(g))),
        15 => Some(("stere", true_scale_or_scale_param(g))),
        16 => Some(("sterea", scale_param(g))),
        17 => Some(("eqc", true_scale_param(g))),
        19 => Some(("gnom", String::new())),
        21 => Some(("ortho", String::new())),
        24 => Some(("sinu", String::new())),
        28 => Some(("cea", true_scale_param(g))),
        _ => None,
    }
}

/// The proj string that the keys describe, for coordinate systems that were
/// written without a code or a WKT citation.
pub fn build_proj_string_from_geokeys(g: &GeoKeys) -> (r: Option<String>)
    ensures
        match proj_string(*g) {
            Some(t) => r matches Some(s) && s@ == t,
            None => r is None,
        },
{
    let ct: u16 = g.proj_coord_trans?;
    let (name, extras) = projection(g, ct)?;
    let lon = or_text(
        or_text(
            first_text(&g.proj_nat_origin_long, &g.proj_center_long),
            &g.proj_false_origin_long,
        ),
        &g.proj_straight_vert_pole_long,
    );
    let lat = or_text(
        first_text(&g.proj_nat_origin_lat, &g.proj_center_lat),
        &g.proj_false_origin_lat,
    );
    let x = first_text(&g.proj_false_easting, &g.proj_false_origin_easting);
    let y = first_text(&g.proj_false_northing, &g.proj_false_origin_northing);
    let mut s = join2("+proj=", name);
    append_tagged(&mut s, " +lon_0=", lon);
    append_tagged(&mut s, " +lat_0=", lat);
    append_tagged(&mut s, " +x_0=", x);
    append_tagged(&mut s, " +y_0=", y);
    s.append(extras.as_str());
    let pm = prime_meridian_param(g);
    let pm_text: Option<&str> = match &pm {
        Some(t) => Some(t.as_str()),
        None => None,
    };
    append_tagged(&mut s, " ", pm_text);
    s.append(" ");
    let e = ellipsoid_param(g);
    s.append(e.as_str());
    s.append(" +no_defs");
    Some(s)
}

// ---------------------------------------------------------------------------
// WKT citations

/// A character that ends the first word of a WKT text.
pub open spec fn ends_word(c: char) -> bool {
    c == '[' || c == '(' || whitespace(c)
}

/// The length of the first word.
pub open spec fn word_len(s: Seq<char>) -> nat
    decreases s.len(),
{
    if s.len() == 0 || ends_word(s[0]) {
        0
    } else {
        1 + word_len(s.skip(1))
    }
}

/// The keywords that a WKT coordinate system starts with.
pub open spec fn is_wkt_keyword(w: Seq<char>) -> bool {
    w == "PROJCS"@ || w == "PROJCRS"@ || w == "GEOGCS"@ || w == "GEOGCRS"@ || w == "GEODCRS"@ || w
        == "BOUNDCRS"@ || w == "COMPD_CS"@ || w == "COMPDCRS"@ || w == "ENGCRS"@ || w == "ENGCS"@
        || w == "VERTCS"@ || w == "VERTCRS"@ || w == "TIMECRS"@
}

/// The text starts, after blanks, with a keyword of a WKT coordinate system.
pub open spec fn is_wkt(s: Seq<char>) -> bool {
    let t = trimmed_start(s);
    is_wkt_keyword(t.take(word_len(t) as int))
}

proof fn lemma_word_len(s: Seq<char>)
    ensures
        word_len(s) <= s.len(),
    decreases s.len(),
{
    if s.len() > 0 && !ends_word(s[0]) {
        lemma_word_len(s.skip(1));
    }
}

/// The first word of a text.
fn first_word(s: &str) -> (r: String)
    ensures
        r@ == s@.take(word_len(s@) as int),
{
    let v = to_chars(s);
    let mut n: usize = 0;
    assert(v@.skip(0) == v@);
    while n < v.len() && v[n] != '[' && v[n] != '(' && !is_whitespace(v[n])
        invariant
            v@ == s@,
            n <= v@.len(),
            word_len(s@) == n + word_len(v@.skip(n as int)),
        ensures
            n <= v@.len(),
            word_len(s@) == n + word_len(v@.skip(n as int)),
            n < v@.len() ==> ends_word(v@[n as int]),
        decreases v@.len() - n,
    {
        assert(v@.skip(n as int).skip(1) == v@.skip(n + 1));
        n = n + 1;
    }
    assert(word_len(v@.skip(n as int)) == 0);
    assert(v@.subrange(0, n as int) == s@.take(n as int));
    from_chars(&v, 0, n)
}

/// Whether a text starts, after blanks, with a keyword of a WKT coordinate
/// system.
pub fn looks_like_wkt(s: &str) -> (r: bool)
    ensures
        r == is_wkt(s@),
{
    let t = trim_start(s);
    let w = first_word(t.as_str());
    let w = w.as_str();
    str_eq(w, "PROJCS") || str_eq(w, "PROJCRS") || str_eq(w, "GEOGCS") || str_eq(w, "GEOGCRS")
        || str_eq(w, "GEODCRS") || str_eq(w, "BOUNDCRS") || str_eq(w, "COMPD_CS") || str_eq(
        w,
        "COMPDCRS",
    ) || str_eq(w, "ENGCRS") || str_eq(w, "ENGCS") || str_eq(w, "VERTCS") || str_eq(w, "VERTCRS")
        || str_eq(w, "TIMECRS")
}

/// A citation without blanks around it, where it is there and looks like WKT.
pub open spec fn wkt_in(o: Option<String>) -> Option<Seq<char>> {
    match o {
        Some(s) => if is_wkt(trimmed(s@)) {
            Some(trimmed(s@))
        } else {
            None
        },
        None => None,
    }
}

/// The first citation that looks like WKT: of the projection, of the geographic
/// system, of the whole.
pub open spec fn wkt_citation(g: GeoKeys) -> Option<Seq<char>> {
    first_of(first_of(wkt_in(g.proj_citation), wkt_in(g.geog_citation)), wkt_in(g.citation))
}

fn find_wkt(o: &Option<String>) -> (r: Option<String>)
    ensures
        match wkt_in(*o) {
            Some(t) => r matches Some(s) && s@ == t,
            None => r is None,
        },
{
    match o {
        Some(s) => {
            let t = trim(s.as_str());
            if looks_like_wkt(t.as_str()) {
                Some(t)
            } else {
                None
            }
        },
        None => None,
    }
}

/// The first citation that looks like WKT.
pub fn first_wkt_citation(g: &GeoKeys) -> (r: Option<String>)
    ensures
        match wkt_citation(*g) {
            Some(t) => r matches Some(s) && s@ == t,
            None => r is None,
        },
{
    match find_wkt(&g.proj_citation) {
        Some(s) => Some(s),
        None => match find_wkt(&g.geog_citation) {
            Some(s) => Some(s),
            None => find_wkt(&g.citation),
        },
    }
}

// ---------------------------------------------------------------------------
// the coordinate system

/// What building a coordinate system gave.
pub open spec fn built(r: Result<Proj, A5CogError>) -> Option<Proj> {
    match r {
        Ok(p) => Some(p),
        Err(_) => None,
    }
}

/// The code can give this coordinate system, or none.
pub uninterp spec fn code_gives(code: u16, p: Option<Proj>) -> bool;

/// `Proj::from_epsg_code`: looks a code up in a table of proj strings and
/// builds the coordinate system. The outcome can depend on the datum grids that
/// the process has loaded, so it is one of those that the code can give, and
/// nothing is said of which.
#[verifier::external_body]
fn proj_from_epsg(code: u16) -> (r: Result<Proj, A5CogError>)
    ensures
        code_gives(code, built(r)),
        r matches Err(e) ==> e is Proj,
{
    Proj::from_epsg_code(code).map_err(|e| A5CogError::Proj(e.to_string()))
}

/// The proj string can give this coordinate system, or none.
pub uninterp spec fn text_gives(s: Seq<char>, p: Option<Proj>) -> bool;

/// `Proj::from_proj_string`: builds a coordinate system from a proj string. The
/// outcome can depend on the datum grids that the process has loaded, so it is
/// one of those that the string can give, and nothing is said of which. The
/// parser of angles cuts the text inside a character of several bytes, so a text
/// with one is left out.
#[verifier::external_body]
fn proj_from_string(s: &str) -> (r: Result<Proj, A5CogError>)
    requires
        ascii(s@),
    ensures
        text_gives(s@, built(r)),
        r matches Err(e) ==> e is Proj,
{
    Proj::from_proj_string(s).map_err(|e| A5CogError::Proj(e.to_string()))
}

/// The text of the error for a proj string that is not ASCII.
pub open spec fn not_ascii() -> Seq<char> {
    "proj string is not ASCII"@
}

/// `r` is what a proj string can give. One that is not ASCII gives an error, as a
/// number that cannot be read does.
pub open spec fn text_built(s: Seq<char>, r: Result<Proj, A5CogError>) -> bool {
    if ascii(s) {
        text_gives(s, built(r)) && (r matches Err(e) ==> e is Proj)
    } else {
        r matches Err(e) && is_proj(e, not_ascii())
    }
}

/// The coordinate system of a proj string.
fn proj_from_text(s: &str) -> (r: Result<Proj, A5CogError>)
    ensures
        text_built(s@, r),
{
    if is_ascii_text(s) {
        proj_from_string(s)
    } else {
        Err(A5CogError::Proj("proj string is not ASCII".to_owned()))
    }
}

/// The proj string of a WKT text, or the text of the error.
pub uninterp spec fn wkt_projstring(wkt: Seq<char>) -> Result<Seq<char>, Seq<char>>;

/// `proj4wkt::wkt_to_projstring`: parses a WKT text and writes it as a proj
/// string, a function of the text alone; the error as `{:?}` shows it.
#[verifier::external_body]
fn projstring_from_wkt(wkt: &str) -> (r: Result<String, String>)
    ensures
        match wkt_projstring(wkt@) {
            Ok(t) => r matches Ok(s) && s@ == t,
            Err(t) => r matches Err(s) && s@ == t,
        },
{
    proj4wkt::wkt_to_projstring(wkt).map_err(|e| format!("{:?}", e))
}

/// The text of the error for keys that name no coordinate system.
pub open spec fn no_crs_keys() -> Seq<char> {
    "EPSG code, WKT citation, or recognisable GeoKey projection params"@
}

/// `r` is what three attempts give: the first that succeeded, else the error of
/// the last that was made, else that none could be made.
pub open spec fn picked<P>(
    by_epsg: Option<Result<P, A5CogError>>,
    by_wkt: Option<Result<P, A5CogError>>,
    by_keys: Option<Result<P, A5CogError>>,
    r: Result<P, A5CogError>,
) -> bool {
    if by_epsg matches Some(Ok(p)) {
        r == by_epsg->Some_0
    } else if by_wkt matches Some(Ok(p)) {
        r == by_wkt->Some_0
    } else if by_keys is Some {
        r == by_keys->Some_0
    } else if by_wkt is Some {
        r == by_wkt->Some_0
    } else if by_epsg is Some {
        r == by_epsg->Some_0
    } else {
        r matches Err(e) && is_missing_geokey(e, no_crs_keys())
    }
}

/// What three attempts at a coordinate system give.
pub fn pick_proj<P>(
    by_epsg: Option<Result<P, A5CogError>>,
    by_wkt: Option<Result<P, A5CogError>>,
    by_keys: Option<Result<P, A5CogError>>,
) -> (r: Result<P, A5CogError>)
    ensures
        picked(by_epsg, by_wkt, by_keys, r),
{
    let mut last: Option<A5CogError> = None;
    match by_epsg {
        Some(Ok(p)) => {
            return Ok(p);
        },
        Some(Err(e)) => {
            last = Some(e);
        },
        None => {},
    }
    match by_wkt {
        Some(Ok(p)) => {
            return Ok(p);
        },
        Some(Err(e)) => {
            last = Some(e);
        },
        None => {},
    }
    match by_keys {
        Some(Ok(p)) => {
            return Ok(p);
        },
        Some(Err(e)) => {
            last = Some(e);
        },
        None => {},
    }
    match last {
        Some(e) => Err(e),
        None => Err(
            A5CogError::MissingGeoKey(
                "EPSG code, WKT citation, or recognisable GeoKey projection params".to_owned(),
            ),
        ),
    }
}

/// The code names a coordinate system.
pub open spec fn usable_epsg(g: GeoKeys) -> bool {
    g.epsg matches Some(c) && c != EPSG_USER_DEFINED && c != 0
}

/// The outcome of the attempt by EPSG code, made where the code names a
/// coordinate system.
pub open spec fn epsg_attempted(g: GeoKeys, a: Option<Result<Proj, A5CogError>>) -> bool {
    if usable_epsg(g) {
        a matches Some(r) && code_gives(g.epsg->Some_0, built(r)) && (r matches Err(e) ==> e is Proj)
    } else {
        a is None
    }
}

/// The outcome of an attempt by proj string, made where there is one.
pub open spec fn text_attempted(
    text: Option<Seq<char>>,
    a: Option<Result<Proj, A5CogError>>,
) -> bool {
    match text {
        Some(s) => a matches Some(r) && text_built(s, r),
        None => a is None,
    }
}

/// The outcome of the WKT attempt: the parse error, or what the proj string of
/// the text gives.
pub open spec fn wkt_attempted(g: GeoKeys, a: Option<Result<Proj, A5CogError>>) -> bool {
    match wkt_citation(g) {
        None => a is None,
        Some(w) => match wkt_projstring(w) {
            Err(t) => a matches Some(Err(e)) && is_invalid(e, "WKT parse: "@ + t),
            Ok(s) => text_attempted(Some(s), a),
        },
    }
}

/// The attempt succeeded.
pub open spec fn succeeded<P>(a: Option<Result<P, A5CogError>>) -> bool {
    a matches Some(Ok(_))
}

fn epsg_attempt(g: &GeoKeys) -> (r: Option<Result<Proj, A5CogError>>)
    ensures
        epsg_attempted(*g, r),
{
    match g.epsg {
        Some(code) => {
            if code != EPSG_USER_DEFINED && code != 0 {
                Some(proj_from_epsg(code))
            } else {
                None
            }
        },
        None => None,
    }
}

fn wkt_attempt(g: &GeoKeys) -> (r: Option<Result<Proj, A5CogError>>)
    ensures
        wkt_attempted(*g, r),
{
    match first_wkt_citation(g) {
        None => None,
        Some(wkt) => match projstring_from_wkt(wkt.as_str()) {
            Ok(s) => Some(proj_from_text(s.as_str())),
            Err(t) => Some(Err(A5CogError::Invalid(join2("WKT parse: ", t.as_str())))),
        },
    }
}

fn keys_attempt(g: &GeoKeys) -> (r: Option<Result<Proj, A5CogError>>)
    ensures
        text_attempted(proj_string(*g), r),
{
    match build_proj_string_from_geokeys(g) {
        None => None,
        Some(s) => Some(proj_from_text(s.as_str())),
    }
}

/// `r` is a coordinate system that the keys can give: that of the first attempt
/// that succeeds, where each attempt is made only if those before it failed.
pub open spec fn src_proj_built(g: GeoKeys, r: Result<Proj, A5CogError>) -> bool {
    exists|
        a: Option<Result<Proj, A5CogError>>,
        b: Option<Result<Proj, A5CogError>>,
        c: Option<Result<Proj, A5CogError>>,
    |
        epsg_attempted(g, a) && (succeeded(a) || wkt_attempted(g, b)) && (succeeded(a) || succeeded(
            b,
        ) || text_attempted(proj_string(g), c)) && #[trigger] picked(a, b, c, r)
}

/// The coordinate system of a raster.
///
/// Three ways are tried in order, each only where those before it failed: the
/// EPSG code, a WKT citation, a proj string rebuilt from the projection keys.
/// The first that works is taken.
pub fn build_src_proj(g: &GeoKeys) -> (r: Result<Proj, A5CogError>)
    ensures
        src_proj_built(*g, r),
{
    let by_epsg = epsg_attempt(g);
    if let Some(Ok(_)) = &by_epsg {
        return pick_proj(by_epsg, None, None);
    }
    let by_wkt = wkt_attempt(g);
    if let Some(Ok(_)) = &by_wkt {
        return pick_proj(by_epsg, by_wkt, None);
    }
    let by_keys = keys_attempt(g);
    pick_proj(by_epsg, by_wkt, by_keys)
}

/// The proj string of longitude and latitude on WGS 84.
pub open spec fn lonlat_text() -> Seq<char> {
    "+proj=longlat +datum=WGS84 +no_defs"@
}

/// The target of every projection: longitude and latitude on WGS 84.
pub fn lonlat_proj() -> (r: Result<Proj, A5CogError>)
    ensures
        text_gives(lonlat_text(), built(r)),
        r matches Err(e) ==> e is Proj,
{
    proof {
        reveal_strlit("+proj=longlat +datum=WGS84 +no_defs");
    }
    proj_from_string("+proj=longlat +datum=WGS84 +no_defs")
}

// ---------------------------------------------------------------------------
// geotransform and nodata tags

/// Where the geotransform of a raster comes from.
pub enum TransformTags<T> {
    /// The six numbers themselves: origin, column step and row step of x, then
    /// of y.
    Matrix([T; 6]),
    /// A pixel size and a tie point: the pixel corner `(i, j)` lies at `(x, y)`,
    /// and rows run down.
    Tie { sx: T, sy: T, i: T, j: T, x: T, y: T },
}

/// `r` is the geotransform that the tags give: of a 4 by 4 transformation by rows
/// where there is one, else of a pixel scale with a tie point.
pub open spec fn transform_read<T: Copy>(
    transformation: Option<Vec<T>>,
    scale: Option<Vec<T>>,
    tie: Option<Vec<T>>,
    r: Result<TransformTags<T>, A5CogError>,
) -> bool {
    match transformation {
        Some(m) => if m@.len() < 16 {
            r matches Err(e) && is_invalid(
                e,
                "ModelTransformation tag has fewer than 16 elements"@,
            )
        } else {
            r matches Ok(TransformTags::Matrix(g)) && g@ == seq![
                m@[3],
                m@[0],
                m@[1],
                m@[7],
                m@[4],
                m@[5],
            ]
        },
        None => match (scale, tie) {
            (None, _) => r matches Err(e) && is_missing_geokey(e, "ModelPixelScale"@),
            (Some(_), None) => r matches Err(e) && is_missing_geokey(e, "ModelTiepoint"@),
            (Some(s), Some(t)) => if s@.len() < 3 || t@.len() < 6 {
                r matches Err(e) && is_invalid(e, "ModelPixelScale or ModelTiepoint malformed"@)
            } else {
                r matches Ok(TransformTags::Tie { sx, sy, i, j, x, y }) && sx == s@[0] && sy
                    == s@[1] && i == t@[0] && j == t@[1] && x == t@[3] && y == t@[4]
            },
        },
    }
}

/// Reads the geotransform tags: a 4 by 4 transformation by rows where there is
/// one, else a pixel scale with a tie point.
pub fn extract_geotransform<T: Copy>(
    transformation: &Option<Vec<T>>,
    scale: &Option<Vec<T>>,
    tie: &Option<Vec<T>>,
) -> (r: Result<TransformTags<T>, A5CogError>)
    ensures
        transform_read(*transformation, *scale, *tie, r),
{
    match transformation {
        Some(m) => {
            if m.len() < 16 {
                return Err(invalid("ModelTransformation tag has fewer than 16 elements"));
            }
            let g: [T; 6] = [m[3], m[0], m[1], m[7], m[4], m[5]];
            assert(g@ =~= seq![m@[3], m@[0], m@[1], m@[7], m@[4], m@[5]]);
            Ok(TransformTags::Matrix(g))
        },
        None => match scale {
            None => Err(A5CogError::MissingGeoKey("ModelPixelScale".to_owned())),
            Some(s) => match tie {
                None => Err(A5CogError::MissingGeoKey("ModelTiepoint".to_owned())),
                Some(t) => {
                    if s.len() < 3 || t.len() < 6 {
                        return Err(invalid("ModelPixelScale or ModelTiepoint malformed"));
                    }
                    Ok(
                        TransformTags::Tie {
                            sx: s[0],
                            sy: s[1],
                            i: t[0],
                            j: t[1],
                            x: t[3],
                            y: t[4],
                        },
                    )
                },
            },
        },
    }
}

/// The nodata tag as a number is read from it: without blanks around it, in
/// small letters, since a number parser may know `nan` only so.
pub fn nodata_text(tag: &str) -> (r: String)
    ensures
        r@ == lower(trimmed(tag@)),
{
    let t = trim(tag);
    to_lower(t.as_str())
}

// ---------------------------------------------------------------------------
// laws

/// Ellipsoid codes have the names of their ellipsoids; no other code has one.
pub proof fn ellipsoid_codes_have_their_names(code: u16)
    ensures
        code == 7001 ==> ellps_name(code) == Some("airy"@),
        code == 7002 ==> ellps_name(code) == Some("mod_airy"@),
        code == 7003 ==> ellps_name(code) == Some("aust_SA"@),
        code == 7004 ==> ellps_name(code) == Some("bessel"@),
        code == 7008 ==> ellps_name(code) == Some("clrk66"@),
        code == 7012 ==> ellps_name(code) == Some("clrk80"@),
        code == 7019 ==> ellps_name(code) == Some("GRS80"@),
        code == 7022 ==> ellps_name(code) == Some("intl"@),
        code == 7030 ==> ellps_name(code) == Some("WGS84"@),
        code == 7035 ==> ellps_name(code) == Some("sphere"@),
        code == 7043 ==> ellps_name(code) == Some("WGS72"@),
        ellps_name(code) is Some <==> code == 7001 || code == 7002 || code == 7003 || code == 7004 || code == 7008 || code == 7012 || code == 7019 || code == 7022 || code == 7030 || code == 7035 || code == 7043,
{
}

/// Prime meridian codes have the names of their cities; Greenwich and other codes have
/// none.
pub proof fn meridian_codes_have_their_names(code: u16)
    ensures
        code == 8902 ==> meridian_name(code) == Some("lisbon"@),
        code == 8903 ==> meridian_name(code) == Some("paris"@),
        code == 8904 ==> meridian_name(code) == Some("bogota"@),
        code == 8905 ==> meridian_name(code) == Some("madrid"@),
        code == 8906 ==> meridian_name(code) == Some("rome"@),
        code == 8907 ==> meridian_name(code) == Some("bern"@),
        code == 8908 ==> meridian_name(code) == Some("jakarta"@),
        code == 8909 ==> meridian_name(code) == Some("ferro"@),
        code == 8910 ==> meridian_name(code) == Some("brussels"@),
        code == 8911 ==> meridian_name(code) == Some("stockholm"@),
        code == 8912 ==> meridian_name(code) == Some("athens"@),
        code == 8913 ==> meridian_name(code) == Some("oslo"@),
        meridian_name(code) is Some <==> 8902 <= code <= 8913,
{
}

proof fn lemma_projection_names()
    ensures
        "aea"@.len() == 3 && "aea"@[0] == 'a' && "aea"@[1] == 'e' && "aea"@[2] == 'a',
        "aeqd"@.len() == 4 && "aeqd"@[0] == 'a' && "aeqd"@[1] == 'e' && "aeqd"@[2] == 'q' && "aeqd"@[3] == 'd',
        "cea"@.len() == 3 && "cea"@[0] == 'c' && "cea"@[1] == 'e' && "cea"@[2] == 'a',
        "eqc"@.len() == 3 && "eqc"@[0] == 'e' && "eqc"@[1] == 'q' && "eqc"@[2] == 'c',
        "eqdc"@.len() == 4 && "eqdc"@[0] == 'e' && "eqdc"@[1] == 'q' && "eqdc"@[2] == 'd' && "eqdc"@[3] == 'c',
        "gnom"@.len() == 4 && "gnom"@[0] == 'g' && "gnom"@[1] == 'n' && "gnom"@[2] == 'o' && "gnom"@[3] == 'm',
        "laea"@.len() == 4 && "laea"@[0] == 'l' && "laea"@[1] == 'a' && "laea"@[2] == 'e' && "laea"@[3] == 'a',
        "lcc"@.len() == 3 && "lcc"@[0] == 'l' && "lcc"@[1] == 'c' && "lcc"@[2] == 'c',
        "merc"@.len() == 4 && "merc"@[0] == 'm' && "merc"@[1] == 'e' && "merc"@[2] == 'r' && "merc"@[3] == 'c',
        "ortho"@.len() == 5 && "ortho"@[0] == 'o' && "ortho"@[1] == 'r' && "ortho"@[2] == 't' && "ortho"@[3] == 'h' && "ortho"@[4] == 'o',
        "sinu"@.len() == 4 && "sinu"@[0] == 's' && "sinu"@[1] == 'i' && "sinu"@[2] == 'n' && "sinu"@[3] == 'u',
        "stere"@.len() == 5 && "stere"@[0] == 's' && "stere"@[1] == 't' && "stere"@[2] == 'e' && "stere"@[3] == 'r' && "stere"@[4] == 'e',
        "sterea"@.len() == 6 && "sterea"@[0] == 's' && "sterea"@[1] == 't' && "sterea"@[2] == 'e' && "sterea"@[3] == 'r' && "sterea"@[4] == 'e' && "sterea"@[5] == 'a',
        "tmerc"@.len() == 5 && "tmerc"@[0] == 't' && "tmerc"@[1] == 'm' && "tmerc"@[2] == 'e' && "tmerc"@[3] == 'r' && "tmerc"@[4] == 'c',
{
    reveal_strlit("aea");
    reveal_strlit("aeqd");
    reveal_strlit("cea");
    reveal_strlit("eqc");
    reveal_strlit("eqdc");
    reveal_strlit("gnom");
    reveal_strlit("laea");
    reveal_strlit("lcc");
    reveal_strlit("merc");
    reveal_strlit("ortho");
    reveal_strlit("sinu");
    reveal_strlit("stere");
    reveal_strlit("sterea");
    reveal_strlit("tmerc");
}

/// The projection of every coordinate transformation code, by name: transverse
/// Mercator (1), Mercator (7), Lambert conformal conic with two parallels (8) and with
/// one (9), Lambert azimuthal equal area (10), Albers equal area (11), azimuthal
/// equidistant (12), equidistant conic (13), stereographic (14), polar stereographic
/// (15), oblique stereographic (16), equirectangular (17), gnomonic (19), orthographic
/// (21), sinusoidal (24) and cylindrical equal area (28). Other codes have none.
pub proof fn codes_name_their_projections(g: GeoKeys, ct: u16)
    ensures
        ct == 1 && projection_of(g, ct) is Some ==> projection_of(g, ct)->Some_0.0 == "tmerc"@,
        ct == 7 && projection_of(g, ct) is Some ==> projection_of(g, ct)->Some_0.0 == "merc"@,
        ct == 8 && projection_of(g, ct) is Some ==> projection_of(g, ct)->Some_0.0 == "lcc"@,
        ct == 9 && projection_of(g, ct) is Some ==> projection_of(g, ct)->Some_0.0 == "lcc"@,
        ct == 10 && projection_of(g, ct) is Some ==> projection_of(g, ct)->Some_0.0 == "laea"@,
        ct == 11 && projection_of(g, ct) is Some ==> projection_of(g, ct)->Some_0.0 == "aea"@,
        ct == 12 && projection_of(g, ct) is Some ==> projection_of(g, ct)->Some_0.0 == "aeqd"@,
        ct == 13 && projection_of(g, ct) is Some ==> projection_of(g, ct)->Some_0.0 == "eqdc"@,
        ct == 14 && projection_of(g, ct) is Some ==> projection_of(g, ct)->Some_0.0 == "stere"@,
        ct == 15 && projection_of(g, ct) is Some ==> projection_of(g, ct)->Some_0.0 == "stere"@,
        ct == 16 && projection_of(g, ct) is Some ==> projection_of(g, ct)->Some_0.0 == "sterea"@,
        ct == 17 && projection_of(g, ct) is Some ==> projection_of(g, ct)->Some_0.0 == "eqc"@,
        ct == 19 && projection_of(g, ct) is Some ==> projection_of(g, ct)->Some_0.0 == "gnom"@,
        ct == 21 && projection_of(g, ct) is Some ==> projection_of(g, ct)->Some_0.0 == "ortho"@,
        ct == 24 && projection_of(g, ct) is Some ==> projection_of(g, ct)->Some_0.0 == "sinu"@,
        ct == 28 && projection_of(g, ct) is Some ==> projection_of(g, ct)->Some_0.0 == "cea"@,
        projection_of(g, ct) is Some ==> ct == 1 || ct == 7 || ct == 8 || ct == 9 || ct == 10 || ct == 11 || ct == 12 || ct == 13 || ct == 14 || ct == 15 || ct == 16 || ct == 17 || ct == 19 || ct == 21 || ct == 24 || ct == 28,
{
}

/// Different projections do not share a name, except the two Lambert conformal conics
/// and the two stereographics.
pub proof fn projections_are_told_apart(g: GeoKeys, ct: u16, h: GeoKeys, other: u16)
    requires
        projection_of(g, ct) is Some,
        projection_of(h, other) is Some,
        projection_of(g, ct)->Some_0.0 == projection_of(h, other)->Some_0.0,
    ensures
        ct == other || (ct == 8 && other == 9) || (ct == 9 && other == 8) || (ct == 14 && other
            == 15) || (ct == 15 && other == 14),
{
    lemma_projection_names();
    codes_name_their_projections(g, ct);
    codes_name_their_projections(h, other);
}

/// The parameters that each projection takes of its own. Conics with two standard
/// parallels (8, 11, 13) take both and cannot do without either; 1, 9, 14 and 16 take
/// the scale factor, which is 1 where it is not given; 7 and 15 take the latitude of
/// true scale where it is given, else the scale factor; 17 and 28 take the latitude of
/// true scale where it is given; the others take none.
pub proof fn projections_take_their_parameters(g: GeoKeys, ct: u16)
    ensures
        ct == 8 || ct == 11 || ct == 13 ==> {
            &&& projection_of(g, ct) is Some <==> g.proj_std_parallel1 is Some
                && g.proj_std_parallel2 is Some
            &&& projection_of(g, ct) is Some ==> projection_of(g, ct)->Some_0.1 == " +lat_1="@
                + g.proj_std_parallel1->Some_0@ + " +lat_2="@ + g.proj_std_parallel2->Some_0@
        },
        ct == 1 || ct == 9 || ct == 14 || ct == 16 ==> projection_of(g, ct) is Some && projection_of(
            g,
            ct,
        )->Some_0.1 == " +k_0="@ + (if g.proj_scale_at_nat_origin is Some {
            g.proj_scale_at_nat_origin->Some_0@
        } else {
            "1"@
        }),
        ct == 7 || ct == 15 ==> projection_of(g, ct) is Some && projection_of(g, ct)->Some_0.1 == (
        if g.proj_std_parallel1 is Some {
            " +lat_ts="@ + g.proj_std_parallel1->Some_0@
        } else if g.proj_scale_at_nat_origin is Some {
            " +k_0="@ + g.proj_scale_at_nat_origin->Some_0@
        } else {
            " +k_0="@ + "1"@
        }),
        ct == 17 || ct == 28 ==> projection_of(g, ct) is Some && projection_of(g, ct)->Some_0.1 == (
        if g.proj_std_parallel1 is Some {
            " +lat_ts="@ + g.proj_std_parallel1->Some_0@
        } else {
            Seq::empty()
        }),
        ct == 10 || ct == 12 || ct == 19 || ct == 21 || ct == 24 ==> projection_of(g, ct) is Some
            && projection_of(g, ct)->Some_0.1.len() == 0,
{
}

/// The centre of a projection is that of the natural origin, else of the centre, else
/// of the false origin, and for a longitude else of the straight vertical pole; the
/// false easting and northing are the plain ones, else those of the false origin.
pub proof fn origins_come_in_order(g: GeoKeys)
    ensures
        g.proj_nat_origin_long matches Some(s) ==> lon_0(g) == Some(s@),
        g.proj_nat_origin_long is None ==> (g.proj_center_long matches Some(s) ==> lon_0(g)
            == Some(s@)),
        g.proj_nat_origin_long is None && g.proj_center_long is None ==> (
        g.proj_false_origin_long matches Some(s) ==> lon_0(g) == Some(s@)),
        g.proj_nat_origin_long is None && g.proj_center_long is None && g.proj_false_origin_long
            is None ==> (g.proj_straight_vert_pole_long matches Some(s) ==> lon_0(g) == Some(s@)),
        g.proj_nat_origin_lat matches Some(s) ==> lat_0(g) == Some(s@),
        g.proj_nat_origin_lat is None ==> (g.proj_center_lat matches Some(s) ==> lat_0(g) == Some(
            s@,
        )),
        g.proj_nat_origin_lat is None && g.proj_center_lat is None ==> (
        g.proj_false_origin_lat matches Some(s) ==> lat_0(g) == Some(s@)),
        g.proj_false_easting matches Some(s) ==> x_0(g) == Some(s@),
        g.proj_false_easting is None ==> (g.proj_false_origin_easting matches Some(s) ==> x_0(g)
            == Some(s@)),
        g.proj_false_northing matches Some(s) ==> y_0(g) == Some(s@),
        g.proj_false_northing is None ==> (g.proj_false_origin_northing matches Some(s) ==> y_0(g)
            == Some(s@)),
        lon_0(g) is None <==> g.proj_nat_origin_long is None && g.proj_center_long is None
            && g.proj_false_origin_long is None && g.proj_straight_vert_pole_long is None,
        lat_0(g) is None <==> g.proj_nat_origin_lat is None && g.proj_center_lat is None
            && g.proj_false_origin_lat is None,
        x_0(g) is None <==> g.proj_false_easting is None && g.proj_false_origin_easting is None,
        y_0(g) is None <==> g.proj_false_northing is None && g.proj_false_origin_northing is None,
{
}

/// The ellipsoid of a proj string: the named one of the code, else the axes as far as
/// they are given, with the inverse flattening before the minor axis, else WGS 84.
pub proof fn ellipsoids_come_in_order(g: GeoKeys)
    ensures
        g.geog_ellipsoid matches Some(c) ==> ellps_name(c) matches Some(n) ==> ellipsoid_text(g)
            == "+ellps="@ + n,
        g.geog_ellipsoid is None || ellps_name(g.geog_ellipsoid->Some_0) is None ==> {
            &&& g.geog_semi_major_axis is None ==> ellipsoid_text(g) == "+ellps=WGS84"@
            &&& g.geog_semi_major_axis is Some && g.geog_inv_flattening is Some ==> ellipsoid_text(
                g,
            ) == "+a="@ + g.geog_semi_major_axis->Some_0@ + " +rf="@
                + g.geog_inv_flattening->Some_0@
            &&& g.geog_semi_major_axis is Some && g.geog_inv_flattening is None
                && g.geog_semi_minor_axis is Some ==> ellipsoid_text(g) == "+a="@
                + g.geog_semi_major_axis->Some_0@ + " +b="@ + g.geog_semi_minor_axis->Some_0@
            &&& g.geog_semi_major_axis is Some && g.geog_inv_flattening is None
                && g.geog_semi_minor_axis is None ==> ellipsoid_text(g) == "+a="@
                + g.geog_semi_major_axis->Some_0@
        },
{
}

/// The prime meridian of a proj string: none for Greenwich (8901), the named one of the
/// code, else the longitude unless it is zero.
pub proof fn meridians_come_in_order(g: GeoKeys)
    ensures
        g.geog_prime_meridian == Some(8901u16) ==> meridian_text(g) is None,
        g.geog_prime_meridian matches Some(c) ==> meridian_name(c) matches Some(n) ==> c != 8901
            ==> meridian_text(g) == Some("+pm="@ + n),
        (g.geog_prime_meridian is None || (g.geog_prime_meridian->Some_0 != 8901 && meridian_name(
            g.geog_prime_meridian->Some_0,
        ) is None)) ==> {
            &&& g.geog_prime_meridian_long is None ==> meridian_text(g) is None
            &&& g.geog_prime_meridian_long matches Some(d) ==> (meridian_text(g) is None <==> d@
                == "0"@ || d@ == "-0"@)
            &&& g.geog_prime_meridian_long matches Some(d) ==> (meridian_text(g) is Some
                ==> meridian_text(g) == Some("+pm="@ + d@))
        },
{
}

/// A proj string starts with its projection, and names its centre, false origin,
/// parameters, prime meridian and ellipsoid in that order, each behind its own tag;
/// what is absent leaves no trace.
pub proof fn proj_strings_name_everything_once(g: GeoKeys, ct: u16)
    requires
        g.proj_coord_trans == Some(ct),
        projection_of(g, ct) is Some,
    ensures
        proj_string(g) is Some,
        ({
            let head = "+proj="@ + projection_of(g, ct)->Some_0.0;
            let lon = if lon_0(g) is Some {
                " +lon_0="@ + lon_0(g)->Some_0
            } else {
                ""@
            };
            let lat = if lat_0(g) is Some {
                " +lat_0="@ + lat_0(g)->Some_0
            } else {
                ""@
            };
            let x = if x_0(g) is Some {
                " +x_0="@ + x_0(g)->Some_0
            } else {
                ""@
            };
            let y = if y_0(g) is Some {
                " +y_0="@ + y_0(g)->Some_0
            } else {
                ""@
            };
            let pm = if meridian_text(g) is Some {
                " "@ + meridian_text(g)->Some_0
            } else {
                ""@
            };
            proj_string(g)->Some_0 == head + lon + lat + x + y + projection_of(g, ct)->Some_0.1
                + pm + " "@ + ellipsoid_text(g) + " +no_defs"@
        }),
{
    reveal_strlit("");
    assert(""@ =~= Seq::<char>::empty());
}

/// Without a coordinate transformation, or with one that is not known or lacks what it
/// needs, the keys describe no projection.
pub proof fn unknown_projections_have_no_string(g: GeoKeys)
    ensures
        proj_string(g) is Some <==> g.proj_coord_trans is Some && projection_of(
            g,
            g.proj_coord_trans->Some_0,
        ) is Some,
{
}

/// The words that a WKT coordinate system starts with.
pub proof fn wkt_starts_with_one_of_thirteen_words(w: Seq<char>)
    ensures
        is_wkt_keyword(w) <==> seq![
            "PROJCS"@,
            "PROJCRS"@,
            "GEOGCS"@,
            "GEOGCRS"@,
            "GEODCRS"@,
            "BOUNDCRS"@,
            "COMPD_CS"@,
            "COMPDCRS"@,
            "ENGCRS"@,
            "ENGCS"@,
            "VERTCS"@,
            "VERTCRS"@,
            "TIMECRS"@,
        ].contains(w),
{
    let all = seq![
        "PROJCS"@,
        "PROJCRS"@,
        "GEOGCS"@,
        "GEOGCRS"@,
        "GEODCRS"@,
        "BOUNDCRS"@,
        "COMPD_CS"@,
        "COMPDCRS"@,
        "ENGCRS"@,
        "ENGCS"@,
        "VERTCS"@,
        "VERTCRS"@,
        "TIMECRS"@,
    ];
    assert(all[0] == "PROJCS"@ && all[1] == "PROJCRS"@ && all[2] == "GEOGCS"@ && all[3]
        == "GEOGCRS"@ && all[4] == "GEODCRS"@ && all[5] == "BOUNDCRS"@ && all[6] == "COMPD_CS"@
        && all[7] == "COMPDCRS"@ && all[8] == "ENGCRS"@ && all[9] == "ENGCS"@ && all[10]
        == "VERTCS"@ && all[11] == "VERTCRS"@ && all[12] == "TIMECRS"@);
}

/// A text that starts with blanks and then a word, up to a bracket or a blank, is WKT
/// exactly where the word is one of the keywords, whatever follows.
pub proof fn first_word_tells_wkt(
    blanks: Seq<char>,
    w: Seq<char>,
    end: char,
    rest: Seq<char>,
)
    requires
        forall|i: int| 0 <= i < blanks.len() ==> whitespace(#[trigger] blanks[i]),
        w.len() > 0,
        forall|i: int|
            0 <= i < w.len() ==> !whitespace(#[trigger] w[i]) && w[i] != '[' && w[i] != '(',
        end == '[' || end == '(' || whitespace(end),
    ensures
        is_wkt(blanks + w + seq![end] + rest) <==> is_wkt_keyword(w),
{
    let tail = w + seq![end] + rest;
    assert(blanks + w + seq![end] + rest =~= blanks + tail);
    assert(tail[0] == w[0]);
    lemma_leading_blanks(blanks, tail);
    lemma_word_before(w, seq![end] + rest);
    assert(w + (seq![end] + rest) =~= tail);
    assert(tail.take(w.len() as int) =~= w);
}

proof fn lemma_leading_blanks(blanks: Seq<char>, tail: Seq<char>)
    requires
        forall|i: int| 0 <= i < blanks.len() ==> whitespace(#[trigger] blanks[i]),
        tail.len() > 0,
        !whitespace(tail[0]),
    ensures
        trimmed_start(blanks + tail) == tail,
    decreases blanks.len(),
{
    let s = blanks + tail;
    if blanks.len() == 0 {
        assert(s =~= tail);
    } else {
        assert(s[0] == blanks[0]);
        assert(s.skip(1) =~= blanks.skip(1) + tail);
        assert forall|i: int| 0 <= i < blanks.skip(1).len() implies whitespace(
            #[trigger] blanks.skip(1)[i],
        ) by {
            assert(blanks.skip(1)[i] == blanks[i + 1]);
        }
        lemma_leading_blanks(blanks.skip(1), tail);
    }
}

proof fn lemma_word_before(w: Seq<char>, rest: Seq<char>)
    requires
        rest.len() > 0,
        rest[0] == '[' || rest[0] == '(' || whitespace(rest[0]),
        forall|i: int|
            0 <= i < w.len() ==> !whitespace(#[trigger] w[i]) && w[i] != '[' && w[i] != '(',
    ensures
        word_len(w + rest) == w.len(),
    decreases w.len(),
{
    let s = w + rest;
    if w.len() > 0 {
        assert(s[0] == w[0]);
        assert(s.skip(1) =~= w.skip(1) + rest);
        assert forall|i: int| 0 <= i < w.skip(1).len() implies !whitespace(
            #[trigger] w.skip(1)[i],
        ) && w.skip(1)[i] != '[' && w.skip(1)[i] != '(' by {
            assert(w.skip(1)[i] == w[i + 1]);
        }
        lemma_word_before(w.skip(1), rest);
    } else {
        assert(s =~= rest);
    }
}

/// The citation that is taken is the projection's where that is WKT, else the
/// geographic system's, else that of the whole, without the blanks around it.
pub proof fn citations_come_in_order(g: GeoKeys)
    ensures
        g.proj_citation matches Some(s) ==> is_wkt(trimmed(s@)) ==> wkt_citation(g) == Some(
            trimmed(s@),
        ),
        (g.proj_citation is None || !is_wkt(trimmed(g.proj_citation->Some_0@))) ==> {
            &&& g.geog_citation matches Some(s) ==> is_wkt(trimmed(s@)) ==> wkt_citation(g) == Some(
                trimmed(s@),
            )
            &&& (g.geog_citation is None || !is_wkt(trimmed(g.geog_citation->Some_0@))) ==> {
                &&& g.citation matches Some(s) ==> is_wkt(trimmed(s@)) ==> wkt_citation(g) == Some(
                    trimmed(s@),
                )
                &&& (g.citation is None || !is_wkt(trimmed(g.citation->Some_0@))) ==> wkt_citation(
                    g,
                ) is None
            }
        },
{
}

/// A code that names a coordinate system, other than 0 and the 32767 of user-defined
/// ones, decides alone where it cannot fail; and where it can, a result that is not
/// the code's is one that the citation or the keys can give.
pub proof fn codes_come_before_citations_and_keys(g: GeoKeys, r: Result<Proj, A5CogError>)
    requires
        src_proj_built(g, r),
    ensures
        g.epsg matches Some(c) ==> c != 0 && c != 32767 && !code_gives(c, None) ==> (r matches Ok(
            p,
        ) && code_gives(c, Some(p))),
        r matches Ok(p) ==> {
            ||| g.epsg matches Some(c) && c != 0 && c != 32767 && code_gives(c, Some(p))
            ||| wkt_citation(g) matches Some(w) && wkt_projstring(w) matches Ok(s) && text_gives(
                s,
                Some(p),
            )
            ||| proj_string(g) matches Some(s) && text_gives(s, Some(p))
        },
        (g.epsg is None || g.epsg == Some(0u16) || g.epsg == Some(32767u16)) ==> {
            &&& wkt_citation(g) matches Some(w) ==> wkt_projstring(w) matches Ok(s) ==> ascii(s)
                && !text_gives(s, None) ==> (r matches Ok(p) && text_gives(s, Some(p)))
            &&& wkt_citation(g) is None && proj_string(g) is None ==> (r matches Err(e)
                && e is MissingGeoKey)
        },
{
    let (a, b, c) = choose|
        a: Option<Result<Proj, A5CogError>>,
        b: Option<Result<Proj, A5CogError>>,
        c: Option<Result<Proj, A5CogError>>,
    |
        epsg_attempted(g, a) && (succeeded(a) || wkt_attempted(g, b)) && (succeeded(a) || succeeded(
            b,
        ) || text_attempted(proj_string(g), c)) && #[trigger] picked(a, b, c, r);
    assert(picked(a, b, c, r));
}

/// Of three attempts the first that succeeded gives the result; where none did, the
/// error is that of the last one that was made.
pub proof fn first_success_wins<P>(
    a: Option<Result<P, A5CogError>>,
    b: Option<Result<P, A5CogError>>,
    c: Option<Result<P, A5CogError>>,
    r: Result<P, A5CogError>,
)
    requires
        picked(a, b, c, r),
    ensures
        a matches Some(Ok(p)) ==> r == Ok::<P, A5CogError>(p),
        !(a matches Some(Ok(_))) ==> (b matches Some(Ok(p)) ==> r == Ok::<P, A5CogError>(p)),
        !(a matches Some(Ok(_))) && !(b matches Some(Ok(_))) ==> (c matches Some(Ok(p)) ==> r
            == Ok::<P, A5CogError>(p)),
        !(a matches Some(Ok(_))) && !(b matches Some(Ok(_))) ==> (c matches Some(Err(e)) ==> r
            == Err::<P, A5CogError>(e)),
        !(a matches Some(Ok(_))) && c is None ==> (b matches Some(Err(e)) ==> r == Err::<
            P,
            A5CogError,
        >(e)),
        b is None && c is None ==> (a matches Some(Err(e)) ==> r == Err::<P, A5CogError>(e)),
        a is None && b is None && c is None ==> r is Err,
{
}

/// A transformation by rows puts its origin into column 3, the step of a column into
/// column 0 and that of a row into column 1 of the rows for x and y; without one, the
/// pixel scale and the tie point are read, in which x and y come behind the three
/// pixel coordinates.
pub proof fn transforms_are_read_by_place<T: Copy>(
    transformation: Option<Vec<T>>,
    scale: Option<Vec<T>>,
    tie: Option<Vec<T>>,
    r: Result<TransformTags<T>, A5CogError>,
)
    requires
        transform_read(transformation, scale, tie, r),
    ensures
        transformation matches Some(m) ==> m@.len() >= 16 ==> (r matches Ok(TransformTags::Matrix(g))
            && g@[0] == m@[3] && g@[1] == m@[0] && g@[2] == m@[1] && g@[3] == m@[7] && g@[4]
            == m@[4] && g@[5] == m@[5]),
        transformation matches Some(m) ==> m@.len() < 16 ==> r is Err,
        transformation is None ==> (scale matches Some(s) ==> (tie matches Some(t) ==> s@.len() >= 3
            && t@.len() >= 6 ==> (r matches Ok(TransformTags::Tie { sx, sy, i, j, x, y }) && sx
            == s@[0] && sy == s@[1] && i == t@[0] && j == t@[1] && x == t@[3] && y == t@[4]))),
        transformation is None && (scale is None || tie is None) ==> (r matches Err(e)
            && e is MissingGeoKey),
{
}

/// Cells are given in degrees of longitude and latitude on WGS 84.
pub proof fn the_globe_is_given_in_degrees_on_wgs84()
    ensures
        lonlat_text() == "+proj=longlat"@ + (" +datum=WGS84"@ + " +no_defs"@),
{
    reveal_strlit("+proj=longlat +datum=WGS84 +no_defs");
    reveal_strlit("+proj=longlat");
    reveal_strlit(" +datum=WGS84");
    reveal_strlit(" +no_defs");
    assert(lonlat_text() =~= "+proj=longlat"@ + (" +datum=WGS84"@ + " +no_defs"@));
}

/// A citation that cannot be read is an invalid input, a projection text with other
/// characters than ASCII a failure of the projection; each carries its reason.
pub proof fn failed_attempts_carry_their_reason(
    g: GeoKeys,
    a: Option<Result<Proj, A5CogError>>,
    s: Seq<char>,
    r: Result<Proj, A5CogError>,
)
    requires
        wkt_attempted(g, a),
        text_built(s, r),
    ensures
        wkt_citation(g) is None ==> a is None,
        wkt_citation(g) matches Some(w) ==> (wkt_projstring(w) matches Err(t) ==> (a matches Some(
            Err(e),
        ) && e is Invalid && crate::error::error_payload(e) == "WKT parse: "@ + t)),
        wkt_citation(g) matches Some(w) ==> (wkt_projstring(w) matches Ok(t) ==> a is Some),
        !ascii(s) ==> (r matches Err(e) && e is Proj && crate::error::error_payload(e)
            == "proj string is not ASCII"@),
        ascii(s) ==> (r matches Ok(p) ==> text_gives(s, Some(p))),
{
}

} // verus!
