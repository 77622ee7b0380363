use a5px::geo::{
    build_proj_string_from_geokeys, build_src_proj, ellipsoid_param, ellps_name_for_epsg,
    extract_geotransform, first_wkt_citation, looks_like_wkt, lonlat_proj, nodata_text, pick_proj,
    prime_meridian_param, GeoKeys, TransformTags,
};
use a5px::metadata::{attr_eq, parse_attr, parse_band_descriptions, walk_items};
use a5px::error::A5CogError;

fn no_keys() -> GeoKeys {
    GeoKeys {
        epsg: None,
        proj_citation: None,
        geog_citation: None,
        citation: None,
        proj_coord_trans: None,
        proj_nat_origin_long: None,
        proj_center_long: None,
        proj_false_origin_long: None,
        proj_straight_vert_pole_long: None,
        proj_nat_origin_lat: None,
        proj_center_lat: None,
        proj_false_origin_lat: None,
        proj_false_easting: None,
        proj_false_origin_easting: None,
        proj_false_northing: None,
        proj_false_origin_northing: None,
        proj_scale_at_nat_origin: None,
        proj_std_parallel1: None,
        proj_std_parallel2: None,
        geog_prime_meridian: None,
        geog_prime_meridian_long: None,
        geog_ellipsoid: None,
        geog_semi_major_axis: None,
        geog_semi_minor_axis: None,
        geog_inv_flattening: None,
    }
}

fn text(s: &str) -> Option<String> {
    Some(s.to_string())
}

#[test]
fn ellipsoids() {
    assert_eq!(ellps_name_for_epsg(7003), Some("aust_SA"));
    assert_eq!(ellps_name_for_epsg(7030), Some("WGS84"));
    assert_eq!(ellps_name_for_epsg(7034), None);
    assert_eq!(ellps_name_for_epsg(7048), None);
    let mut g = no_keys();
    assert_eq!(ellipsoid_param(&g), "+ellps=WGS84");
    g.geog_semi_major_axis = text("6378249.145");
    assert_eq!(ellipsoid_param(&g), "+a=6378249.145");
    g.geog_semi_minor_axis = text("6356514.87");
    assert_eq!(ellipsoid_param(&g), "+a=6378249.145 +b=6356514.87");
    g.geog_inv_flattening = text("293.465");
    assert_eq!(ellipsoid_param(&g), "+a=6378249.145 +rf=293.465");
    g.geog_ellipsoid = Some(7048);
    assert_eq!(ellipsoid_param(&g), "+a=6378249.145 +rf=293.465");
    g.geog_ellipsoid = Some(7019);
    assert_eq!(ellipsoid_param(&g), "+ellps=GRS80");
}

#[test]
fn prime_meridians() {
    let mut g = no_keys();
    assert_eq!(prime_meridian_param(&g), None);
    g.geog_prime_meridian = Some(8903);
    assert_eq!(prime_meridian_param(&g), text("+pm=paris"));
    g.geog_prime_meridian_long = text("2.5");
    g.geog_prime_meridian = Some(8901);
    assert_eq!(prime_meridian_param(&g), None);
    g.geog_prime_meridian = Some(9999);
    assert_eq!(prime_meridian_param(&g), text("+pm=2.5"));
    g.geog_prime_meridian_long = text("0");
    assert_eq!(prime_meridian_param(&g), None);
}

#[test]
fn proj_strings() {
    let mut g = no_keys();
    assert_eq!(build_proj_string_from_geokeys(&g), None);
    g.proj_coord_trans = Some(1);
    g.proj_nat_origin_long = text("117");
    g.proj_false_easting = text("500000");
    g.proj_false_northing = text("0");
    assert_eq!(
        build_proj_string_from_geokeys(&g),
        text("+proj=tmerc +lon_0=117 +x_0=500000 +y_0=0 +k_0=1 +ellps=WGS84 +no_defs")
    );
    g.proj_scale_at_nat_origin = text("0.9996");
    g.geog_prime_meridian = Some(8903);
    g.geog_ellipsoid = Some(7004);
    g.proj_nat_origin_lat = text("-5");
    assert_eq!(
        build_proj_string_from_geokeys(&g),
        text(
            "+proj=tmerc +lon_0=117 +lat_0=-5 +x_0=500000 +y_0=0 +k_0=0.9996 +pm=paris \
             +ellps=bessel +no_defs"
        )
    );
    // oblique and polar stereographic differ
    let mut g = no_keys();
    g.proj_coord_trans = Some(16);
    assert_eq!(
        build_proj_string_from_geokeys(&g),
        text("+proj=sterea +k_0=1 +ellps=WGS84 +no_defs")
    );
    g.proj_coord_trans = Some(15);
    g.proj_std_parallel1 = text("70");
    g.proj_straight_vert_pole_long = text("-45");
    assert_eq!(
        build_proj_string_from_geokeys(&g),
        text("+proj=stere +lon_0=-45 +lat_ts=70 +ellps=WGS84 +no_defs")
    );
    g.proj_coord_trans = Some(7);
    assert_eq!(
        build_proj_string_from_geokeys(&g),
        text("+proj=merc +lon_0=-45 +lat_ts=70 +ellps=WGS84 +no_defs")
    );
    g.proj_coord_trans = Some(28);
    assert_eq!(
        build_proj_string_from_geokeys(&g),
        text("+proj=cea +lon_0=-45 +lat_ts=70 +ellps=WGS84 +no_defs")
    );
    // two parallels are needed
    g.proj_coord_trans = Some(8);
    assert_eq!(build_proj_string_from_geokeys(&g), None);
    g.proj_std_parallel2 = text("50");
    assert_eq!(
        build_proj_string_from_geokeys(&g),
        text("+proj=lcc +lon_0=-45 +lat_1=70 +lat_2=50 +ellps=WGS84 +no_defs")
    );
    g.proj_coord_trans = Some(10);
    assert_eq!(
        build_proj_string_from_geokeys(&g),
        text("+proj=laea +lon_0=-45 +ellps=WGS84 +no_defs")
    );
    g.proj_coord_trans = Some(99);
    assert_eq!(build_proj_string_from_geokeys(&g), None);
}

const UTM: &str = "PROJCS[\"WGS 84 / UTM zone 50N\",GEOGCS[\"WGS 84\",DATUM[\"WGS_1984\",\
SPHEROID[\"WGS 84\",6378137,298.257223563]],PRIMEM[\"Greenwich\",0],\
UNIT[\"degree\",0.0174532925199433]],PROJECTION[\"Transverse_Mercator\"],\
PARAMETER[\"latitude_of_origin\",0],PARAMETER[\"central_meridian\",117],\
PARAMETER[\"scale_factor\",0.9996],PARAMETER[\"false_easting\",500000],\
PARAMETER[\"false_northing\",0],UNIT[\"metre\",1]]";

#[test]
fn wkt_texts() {
    assert!(looks_like_wkt("  PROJCS[\"x\"]"));
    assert!(looks_like_wkt("GEOGCRS (\"x\")"));
    assert!(looks_like_wkt("BOUNDCRS"));
    assert!(!looks_like_wkt("WGS 84 / UTM zone 50N"));
    assert!(!looks_like_wkt("PROJCSX[\"x\"]"));
    assert!(!looks_like_wkt(""));
    let mut g = no_keys();
    assert_eq!(first_wkt_citation(&g), None);
    g.citation = text("GEOGCS[\"b\"]");
    g.geog_citation = text("not this");
    assert_eq!(first_wkt_citation(&g), text("GEOGCS[\"b\"]"));
}

#[test]
fn coordinate_systems() {
    let mut g = no_keys();
    let e = build_src_proj(&g).err().unwrap().message();
    assert_eq!(
        e,
        "missing geokey: EPSG code, WKT citation, or recognisable GeoKey projection params"
    );
    // the code comes first
    g.epsg = Some(4326);
    g.citation = text(UTM);
    assert!(build_src_proj(&g).unwrap().is_latlong());
    // a user-defined code is none
    g.epsg = Some(32767);
    let p = build_src_proj(&g).unwrap();
    assert!(!p.is_latlong());
    // a code that is unknown falls through to the projection keys
    let mut g = no_keys();
    g.epsg = Some(1);
    assert!(matches!(build_src_proj(&g), Err(A5CogError::Proj(_))));
    g.proj_coord_trans = Some(10);
    g.proj_nat_origin_lat = text("52");
    assert_eq!(build_src_proj(&g).unwrap().projname(), "laea");
    // a broken text reports its parse error
    let mut g = no_keys();
    g.citation = text("PROJCS[");
    assert!(matches!(build_src_proj(&g), Err(A5CogError::Invalid(_))));
}

#[test]
fn picked_coordinate_system() {
    let err = |s: &str| Some(Err(A5CogError::Proj(s.to_string())));
    assert_eq!(pick_proj(Some(Ok(1)), Some(Ok(2)), None).unwrap(), 1);
    assert_eq!(pick_proj(err("a"), None, Some(Ok(3))).unwrap(), 3);
    assert_eq!(pick_proj::<i32>(err("a"), err("b"), None).err().unwrap().message(), "proj error: b");
    assert!(pick_proj::<i32>(None, None, None).is_err());
}

#[test]
fn geotransforms() {
    let none: Option<Vec<i32>> = None;
    let m: Vec<i32> = (0..16).collect();
    match extract_geotransform(&Some(m), &none, &none).unwrap() {
        TransformTags::Matrix(g) => assert_eq!(g, [3, 0, 1, 7, 4, 5]),
        TransformTags::Tie { .. } => panic!("a tie point"),
    }
    match extract_geotransform(&none, &Some(vec![10, 20, 0]), &Some(vec![1, 2, 0, 500, 600, 0]))
        .unwrap()
    {
        TransformTags::Tie { sx, sy, i, j, x, y } => {
            assert_eq!((sx, sy, i, j, x, y), (10, 20, 1, 2, 500, 600));
        }
        TransformTags::Matrix(_) => panic!("a matrix"),
    }
    let e = |m: Option<Vec<i32>>, s: Option<Vec<i32>>, t: Option<Vec<i32>>| {
        extract_geotransform(&m, &s, &t).err().unwrap().message()
    };
    assert_eq!(
        e(Some(vec![1]), None, None),
        "invalid input: ModelTransformation tag has fewer than 16 elements"
    );
    assert_eq!(e(None, None, Some(vec![1])), "missing geokey: ModelPixelScale");
    assert_eq!(e(None, Some(vec![1]), None), "missing geokey: ModelTiepoint");
    assert_eq!(
        e(None, Some(vec![1, 2, 3]), Some(vec![1])),
        "invalid input: ModelPixelScale or ModelTiepoint malformed"
    );
    assert_eq!(nodata_text("  NaN\u{a0}"), "nan");
}

#[test]
fn metadata_items() {
    let xml = "<GDALMetadata><Item name=\"DESCRIPTION\" sample=\"1\" role=\"description\"> B2 </Item>\
               <Item name=\"SCALE\" sample=\"0\">2</Item>\
               <Item name=\"DESCRIPTION\" sample=\"9\">far</Item>\
               <Item name=\"DESCRIPTION\">all</Item></GDALMetadata>";
    let items = walk_items(xml);
    assert_eq!(items.len(), 4);
    assert_eq!(parse_band_descriptions(Some(xml), 3), vec!["band_01", "B2", "band_03"]);
    assert_eq!(parse_band_descriptions(Some("<Item name=\"X\">1</Item>"), 3).len(), 0);
    assert_eq!(parse_band_descriptions(None, 3).len(), 0);
    assert_eq!(parse_band_descriptions(Some("<Item name=\"DESCRIPTION\" sample=\"0\">x"), 1).len(), 0);
    assert_eq!(parse_attr("<Item name=\"a b\" sample=\"3\"", "sample"), text("3"));
    assert_eq!(parse_attr("<Item name=\"a b\"", "sample"), None);
    assert!(attr_eq("<Item name=\"DESCRIPTION\"", "name", "DESCRIPTION"));
    assert!(!attr_eq("<Item name=\"DESC\"", "name", "DESCRIPTION"));
}

/// A number text that is not ASCII gives the error of the attempt by keys.
#[test]
fn number_texts_are_ascii() {
    let mut g = no_keys();
    g.proj_coord_trans = Some(1);
    g.proj_nat_origin_long = text("12\u{2032}30'");
    let e = build_src_proj(&g).err().unwrap();
    assert_eq!(e.message(), "proj error: proj string is not ASCII");
    g.proj_nat_origin_long = text("12d30'");
    assert!(build_src_proj(&g).is_ok());
    g.proj_nat_origin_long = text("12x30'");
    assert!(matches!(build_src_proj(&g), Err(A5CogError::Proj(_))));
}

#[test]
fn projection_target() {
    let p = lonlat_proj().unwrap();
    assert!(p.is_latlong());
    let mut at = (1.0, 0.5, 0.0);
    proj4rs::transform::transform(&p, &p, &mut at).unwrap();
    assert_eq!((at.0, at.1), (1.0, 0.5));
}
