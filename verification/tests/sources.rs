use a5px::error::A5CogError;
use a5px::source::{
    check_known, check_opts, describe, is_remote_scheme, parse_store_opts, reject_opts,
    resolve_scheme, resolve_source, s3_url_region, source_host, truthy, unknown_key, Provider,
    Scheme, Source, StoreConfig, StoreOpts,
};

fn opts(v: &[(&str, &str)]) -> StoreOpts {
    v.iter().map(|(a, b)| (a.to_string(), b.to_string())).collect()
}

fn strings(v: &[&str]) -> Vec<String> {
    v.iter().map(|s| s.to_string()).collect()
}

#[test]
fn store_options() {
    let o = parse_store_opts(&strings(&[" AWS_Region ", "k"]), &strings(&["Eu", " v "])).unwrap();
    assert_eq!(o, opts(&[("aws_region", "Eu"), ("k", " v ")]));
    assert_eq!(
        parse_store_opts(&strings(&["a"]), &strings(&[])).err().unwrap().message(),
        "invalid input: store_opts: 1 keys but 0 values"
    );
    assert!(truthy(Some("YES")));
    assert!(truthy(Some("1")));
    assert!(truthy(Some("true")));
    assert!(!truthy(Some("no")));
    assert!(!truthy(Some("")));
    assert!(!truthy(None));
    assert!(reject_opts("local path", &opts(&[])).is_ok());
    let e = reject_opts("local path", &opts(&[("region", "x")])).err().unwrap();
    assert!(matches!(e, A5CogError::Invalid(_)));
    assert!(unknown_key("S3", "foo").message().contains("foo"));
}

#[test]
fn known_options() {
    let o = opts(&[("region", "eu"), ("nonsense", "1")]);
    assert!(check_known("S3", &o, &vec![true, true]).is_ok());
    assert_eq!(
        check_known("S3", &o, &vec![true, false]).err().unwrap().message(),
        unknown_key("S3", "nonsense").message()
    );
    assert!(check_opts(Provider::S3, &opts(&[("region", "eu"), ("skip_signature", "true")])).is_ok());
    assert_eq!(
        check_opts(Provider::S3, &o).err().unwrap().message(),
        unknown_key("S3", "nonsense").message()
    );
    assert!(check_opts(Provider::Gcs, &opts(&[("google_service_account", "x")])).is_ok());
    assert!(check_opts(Provider::Gcs, &opts(&[("aws_region", "x")])).is_err());
    assert!(check_opts(Provider::Azure, &opts(&[("azure_storage_account_name", "x")])).is_ok());
    assert!(check_opts(Provider::Azure, &opts(&[("aws_region", "x")])).is_err());
    assert!(check_opts(Provider::Http, &opts(&[("timeout", "5s")])).is_ok());
    assert!(check_opts(Provider::Http, &opts(&[("aws_region", "x")])).is_err());
}

#[test]
fn resolved_sources() {
    let f = |s: &str| resolve_source(s, &opts(&[]));
    assert!(matches!(f("/data/x.tif"), Ok(Source::Local)));
    assert!(matches!(f("C:\\data\\x.tif"), Ok(Source::Local)));
    assert!(matches!(f("relative/x.tif"), Ok(Source::Local)));
    assert!(matches!(f("file:///data/x.tif"), Ok(Source::FileUrl(p)) if p == "data/x.tif"));
    assert!(matches!(f("s3://bucket/x.tif"), Ok(Source::Remote(Provider::S3, _))));
    assert!(matches!(f("gs://bucket/x.tif"), Ok(Source::Remote(Provider::Gcs, _))));
    assert!(matches!(f("az://container/x.tif"), Ok(Source::Remote(Provider::Azure, _))));
    assert!(matches!(f("https://example.com/x.tif"), Ok(Source::Remote(Provider::Http, _))));
    assert!(matches!(
        f("https://s3.eu-west-1.amazonaws.com/bucket/x.tif"),
        Ok(Source::Remote(Provider::S3, _))
    ));
    assert!(matches!(f("ftp://example.com/x.tif"), Err(A5CogError::Invalid(_))));
    assert!(matches!(f("memory:///x.tif"), Err(A5CogError::Unsupported(_))));
    assert_eq!(source_host("https://example.com/x.tif"), "example.com");
    assert_eq!(source_host("s3://bucket/x.tif"), "bucket");
    assert_eq!(source_host("/data/x.tif"), "");
    assert!(is_remote_scheme("s3"));
    assert!(!is_remote_scheme("c"));
}

/// A local path takes no options, and no source takes an unknown one.
#[test]
fn options_are_checked() {
    let o = opts(&[("region", "eu")]);
    assert!(resolve_source("/data/x.tif", &o).is_err());
    assert!(resolve_source("file:///data/x.tif", &o).is_err());
    assert!(resolve_source("s3://bucket/x.tif", &o).is_ok());
    assert!(resolve_source("s3://bucket/x.tif", &opts(&[("nonsense", "1")])).is_err());
    assert!(resolve_source("https://example.com/x.tif", &opts(&[("nonsense", "1")])).is_err());
}

#[test]
fn schemes() {
    assert!(matches!(
        resolve_scheme(&Ok(Scheme::Azure), "u"),
        Ok(Some(Provider::Azure))
    ));
    assert!(matches!(resolve_scheme(&Ok(Scheme::File), "u"), Ok(None)));
    assert_eq!(
        resolve_scheme(&Ok(Scheme::Other("Memory".to_string())), "memory:///x").err().unwrap().message(),
        "unsupported configuration: source URL scheme Memory is not supported (memory:///x)"
    );
    assert_eq!(
        resolve_scheme(&Err("why".to_string()), "ftp://x").err().unwrap().message(),
        "invalid input: unsupported source URL ftp://x: why"
    );
}

#[test]
fn regions() {
    assert_eq!(s3_url_region("s3.eu-west-1.amazonaws.com"), Some("eu-west-1".to_string()));
    assert_eq!(
        s3_url_region("bucket.s3.us-west-2.amazonaws.com"),
        Some("us-west-2".to_string())
    );
    assert_eq!(s3_url_region("bucket.s3.amazonaws.com"), None);
    assert_eq!(s3_url_region("example.com"), None);
    assert_eq!(s3_url_region(""), None);
}

fn s3(key: &str) -> StoreConfig {
    StoreConfig::S3 {
        region: "eu".to_string(),
        endpoint: "".to_string(),
        skip_signature: "true".to_string(),
        virtual_hosted_style_request: "false".to_string(),
        access_key_id: key.to_string(),
        token: "".to_string(),
    }
}

/// A description tells of credentials only whether they are set.
#[test]
fn descriptions() {
    let d = describe(&s3("one"), "bucket");
    assert_eq!(
        d,
        opts(&[
            ("provider", "s3"),
            ("host", "bucket"),
            ("region", "eu"),
            ("endpoint", ""),
            ("skip_signature", "true"),
            ("virtual_hosted_style_request", "false"),
            ("static_credentials", "true"),
            ("session_token", "false"),
        ])
    );
    assert_eq!(d, describe(&s3("two"), "bucket"));
    assert_ne!(d, describe(&s3(""), "bucket"));
    let d = describe(&s3(""), "s3.us-west-2.amazonaws.com");
    assert_eq!(d[2].1, "us-west-2");
    assert_eq!(
        describe(&StoreConfig::Http, "example.com"),
        opts(&[("provider", "http"), ("host", "example.com")])
    );
    assert_eq!(describe(&StoreConfig::Local, "x"), opts(&[("provider", "local")]));
    let g = StoreConfig::Gcs {
        skip_signature: "false".to_string(),
        service_account: "".to_string(),
        service_account_key: "".to_string(),
        application_credentials: "p".to_string(),
    };
    assert_eq!(describe(&g, "h")[3].1, "true");
    let a = StoreConfig::Azure {
        account: "acc".to_string(),
        skip_signature: "false".to_string(),
        access_key: "".to_string(),
        sas_key: "".to_string(),
        token: "".to_string(),
    };
    assert_eq!(
        describe(&a, "h"),
        opts(&[
            ("provider", "azure"),
            ("host", "h"),
            ("account", "acc"),
            ("skip_signature", "false"),
            ("static_credentials", "false"),
        ])
    );
}

/// A remote source is resolved to its place: the URL, its origin, and the path
/// within the store.
#[test]
fn places_of_sources() {
    let place = |s: &str| match resolve_source(s, &opts(&[])) {
        Ok(Source::Remote(p, q)) => (p, q.url, q.base, q.path),
        _ => panic!("not remote"),
    };
    assert_eq!(
        place("https://example.com/a%20b/x.tif?v=1"),
        (
            Provider::Http,
            "https://example.com/a%20b/x.tif?v=1".to_string(),
            "https://example.com".to_string(),
            "a b/x.tif".to_string()
        )
    );
    assert_eq!(place("s3://bucket/dir/x.tif").3, "dir/x.tif");
    // the bucket is part of the path in this form of the URL, not of the object's
    assert_eq!(place("https://s3.eu-west-1.amazonaws.com/bucket/dir/x.tif").3, "dir/x.tif");
    assert_eq!(place("gs://bucket/").3, "");
}
