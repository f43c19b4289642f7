use pic_library::routing::{LocalAddresses, Routing};
use pic_library::picker::{importable, listing_texts, open_failure_text, picker_load, row_label, up_target, PickerLoad};
use pic_library::listing::{
    discovered_shares, encoded_segment, nfs_children, nfs_root_listing, nfs_root_metadata,
    normalize_exports, scanned_shares, smb_children,
};
use pic_library::nfs::{decode, encode, parsed, resolve, NfsUriError};
use pic_library::shares::{normalize_input, private, replace_host, uri_host, with_original_host, Entry};
use pic_library::transport::{
    self, listed_entry, metadata_from_stat, mount_plan, read_progress, target, ReadProgress, READ_LIMIT,
};

#[test]
fn uri_encoding() {
    assert_eq!(
        parsed("nfs://DietPi.local:2049/mnt/4TBP/Some%20Photos").unwrap(),
        ("DietPi.local".into(), "/mnt/4TBP/Some Photos".into())
    );
}

#[test]
fn reject_parent() {
    assert!(parsed("nfs://dietpi.local/mnt/4TBP/../etc").is_err());
}

#[test]
fn parsed_errors_name_the_problem() {
    assert_eq!(parsed("smb://host/a"), Err(NfsUriError::NotNfs));
    assert_eq!(parsed("nfs:///a"), Err(NfsUriError::MissingServer));
    assert_eq!(parsed("nfs://user@host/a"), Err(NfsUriError::UnsupportedHost));
    assert_eq!(parsed("nfs://host/a%2"), Err(NfsUriError::TruncatedEscape));
    assert_eq!(parsed("nfs://host/a%zz"), Err(NfsUriError::InvalidEscape));
    assert_eq!(parsed("nfs://host/a%2Fb"), Err(NfsUriError::EscapedSeparator));
    assert_eq!(parsed("nfs://host/a%FF"), Err(NfsUriError::NotUtf8));
    assert_eq!(parsed("nfs://host/./a"), Err(NfsUriError::UnsafePath));
    assert_eq!(parsed("nfs://host"), Ok(("host".into(), "/".into())));
    assert_eq!(parsed("nfs://host:/x//y/"), Ok(("host".into(), "/x/y".into())));
}

#[test]
fn segment_decode_rejects_bad_escapes() {
    assert_eq!(decode("a%2Fb"), Err(NfsUriError::EscapedSeparator));
    assert_eq!(decode("a%2fb"), Err(NfsUriError::EscapedSeparator));
    assert_eq!(decode("a%00"), Err(NfsUriError::EscapedSeparator));
    assert_eq!(decode("%2"), Err(NfsUriError::TruncatedEscape));
    assert_eq!(decode("%G0"), Err(NfsUriError::InvalidEscape));
    assert_eq!(decode("%FF"), Err(NfsUriError::NotUtf8));
    assert_eq!(decode("%41b"), Ok("Ab".to_string()));
}

#[test]
fn segment_codec_round_trip() {
    assert_eq!(encode("Some Photos"), "Some%20Photos");
    assert_eq!(encode("é"), "%C3%A9");
    assert_eq!(decode("Some%20Photos"), Ok("Some Photos".to_string()));
    assert_eq!(decode(&encode("a/b é#")), Err(NfsUriError::EscapedSeparator));
    assert_eq!(decode(&encode("a b é#")), Ok("a b é#".to_string()));
}

#[test]
fn safe_segment() {
    assert_eq!(encoded_segment("Home Movies"), "Home%20Movies");
    assert_eq!(encoded_segment("a#b"), "a%23b");
}

#[test]
fn resolve_picks_the_longest_export() {
    let exports = vec!["/mnt".to_string(), "/mnt/4TBP".to_string(), "/srv".to_string()];
    assert_eq!(
        resolve(&exports, "/mnt/4TBP/Photos"),
        Ok(("/mnt/4TBP".to_string(), "/Photos".to_string()))
    );
    assert_eq!(resolve(&exports, "/mnt/4TBP"), Ok(("/mnt/4TBP".to_string(), "/".to_string())));
    assert_eq!(resolve(&exports, "/mnt/4TBPX"), Ok(("/mnt".to_string(), "/4TBPX".to_string())));
    assert_eq!(resolve(&exports, "/home"), Err(NfsUriError::NotExported));
}

#[test]
fn finds_uri_hostname_without_consuming_port_or_path() {
    let (host, range) = uri_host("smb://DietPi.local:445/Photos").unwrap();
    assert_eq!(host, "DietPi.local");
    assert_eq!(
        replace_host("smb://DietPi.local:445/Photos", range, "10.0.0.1".into()),
        "smb://10.0.0.1:445/Photos"
    );
}

#[test]
fn host_range_counts_bytes_of_non_ascii_names() {
    let uri = "smb://b\u{fc}cher.local:445/Fotos";
    let (host, range) = uri_host(uri).unwrap();
    assert_eq!(host, "b\u{fc}cher.local");
    assert_eq!(range, 6..19);
    assert_eq!(&uri[range.clone()], "b\u{fc}cher.local");
    assert_eq!(replace_host(uri, range, "10.0.0.7".into()), "smb://10.0.0.7:445/Fotos");
}

#[test]
fn ignores_non_network_and_credentialed_uris() {
    assert!(uri_host("/media/photos").is_none());
    assert!(uri_host("smb://user@server.local/photos").is_none());
}

#[test]
fn restores_hostname_when_nfs_listing_changes_the_path() {
    let original = "nfs://DietPi.local:2049/mnt";
    let routed = "nfs://10.0.0.1:2049/4TBP";
    let host = uri_host(original).unwrap().0.to_owned();
    let (_, range) = uri_host(routed).unwrap();
    assert_eq!(replace_host(routed, range, host), "nfs://DietPi.local:2049/4TBP");
    assert_eq!(with_original_host(routed, original), "nfs://DietPi.local:2049/4TBP");
}

#[test]
fn nfs_uris_use_the_private_direct_transport() {
    assert!(private("nfs://10.0.0.1/mnt/4TBP"));
    assert_eq!(
        normalize_input("nfs://10.0.0.1/mnt/4TBP"),
        Some("nfs://10.0.0.1/mnt/4TBP".into())
    );
}

#[test]
fn normalizes_typed_addresses_to_canonical_smb_uris() {
    assert_eq!(normalize_input("Ella.local"), Some("smb://Ella.local/".into()));
    assert_eq!(
        normalize_input("Ella.local/Documents/2025"),
        Some("smb://Ella.local/Documents/2025".into())
    );
    assert_eq!(
        normalize_input(r"\\Ella.local\Documents\2025"),
        Some("smb://Ella.local/Documents/2025".into())
    );
    assert_eq!(normalize_input("10.0.0.119"), Some("smb://10.0.0.119/".into()));
    assert_eq!(
        normalize_input("smb://DietPi.local:445/Photos"),
        Some("smb://DietPi.local:445/Photos".into())
    );
    assert_eq!(normalize_input("nfs://10.0.0.2/export"), Some("nfs://10.0.0.2/export".into()));
    assert_eq!(normalize_input(""), None);
    assert_eq!(normalize_input("/home/peet/photos"), None);
    assert_eq!(normalize_input("https://example.com/share"), None);
}

#[test]
fn parses_export_and_nested_path() {
    let parsed = target("nfs://server:2049/mnt/photos/2026/a.jpg").unwrap();
    assert_eq!(parsed.host, "server");
    assert_eq!(parsed.segments, ["mnt", "photos", "2026", "a.jpg"]);
}

#[test]
fn target_errors_and_lenient_decoding() {
    assert_eq!(target("smb://server/x").unwrap_err(), "not an nfs URI");
    assert_eq!(target("smb://h/%x\u{e9}").unwrap_err(), "not an nfs URI");
    assert_eq!(target("nfs://:1/%x\u{e9}").unwrap_err(), "NFS URI has no host");
    assert_eq!(target("nfs://server").unwrap_err(), "NFS URI has no export");
    assert_eq!(target("nfs://:2049/x").unwrap_err(), "NFS URI has no host");
    assert_eq!(target("nfs://server//").unwrap_err(), "NFS URI has no export");
    let t = target("nfs://[fe80::1]/a%20b/%zz/%+4").unwrap();
    assert_eq!(t.host, "fe80");
    assert_eq!(t.segments, ["a b", "%zz", "\u{4}"]);
    assert_eq!(transport::decode("%41%2"), "A%2");
}

#[test]
fn mount_plan_tries_longest_export_first() {
    let t = target("nfs://server/mnt/photos/a.jpg").unwrap();
    let plan = mount_plan(&t);
    assert_eq!(plan.v4_path, "/mnt/photos/a.jpg");
    assert_eq!(
        plan.v3_attempts,
        vec![
            ("/mnt/photos/a.jpg".to_string(), "/".to_string()),
            ("/mnt/photos".to_string(), "/a.jpg".to_string()),
            ("/mnt".to_string(), "/photos/a.jpg".to_string()),
        ]
    );
}

#[test]
fn stat_and_listing_entries() {
    let meta = metadata_from_stat(0o040755, 4096, 1_700_000_000);
    assert!(meta.is_dir);
    assert_eq!(meta.size, 4096);
    assert_eq!(meta.mtime, 1_700_000_000);
    assert!(!metadata_from_stat(0o100644, 1, 2).is_dir);
    assert!(listed_entry(".".into(), 2, 0, 0).is_none());
    assert!(listed_entry("..".into(), 2, 0, 0).is_none());
    let e = listed_entry("a.jpg".into(), 1, 10, 20).unwrap();
    assert!(!e.is_dir);
    assert_eq!(e.name, "a.jpg");
    assert!(listed_entry("d".into(), 2, 0, 0).unwrap().is_dir);
}

#[test]
fn read_progress_stops_at_the_limit() {
    assert_eq!(read_progress(0, -1), ReadProgress::Failed);
    assert_eq!(read_progress(10, 0), ReadProgress::Finished);
    assert_eq!(read_progress(10, 5), ReadProgress::Continue(15));
    assert_eq!(read_progress(READ_LIMIT, 1), ReadProgress::TooLarge);
    assert_eq!(read_progress(READ_LIMIT - 1, 1), ReadProgress::Continue(READ_LIMIT));
}

fn names(entries: &[Entry]) -> Vec<(String, String, bool)> {
    entries.iter().map(|e| (e.name.clone(), e.uri.clone(), e.is_dir)).collect()
}

#[test]
fn nfs_children_show_directories_first_and_images_by_name() {
    let results = vec![
        ("b.JPG".to_string(), 8),
        ("notes.txt".to_string(), 8),
        ("Zeta".to_string(), 7),
        ("A photo.png".to_string(), 8),
        ("alpha".to_string(), 7),
        ("link".to_string(), 9),
        ("share".to_string(), 3),
    ];
    let entries = nfs_children("nfs://host/mnt/", results.clone());
    assert_eq!(
        names(&entries),
        vec![
            ("alpha".to_string(), "nfs://host/mnt/alpha".to_string(), true),
            ("Zeta".to_string(), "nfs://host/mnt/Zeta".to_string(), true),
            ("A photo.png".to_string(), "nfs://host/mnt/A%20photo.png".to_string(), false),
            ("b.JPG".to_string(), "nfs://host/mnt/b.JPG".to_string(), false),
        ]
    );
    let smb = smb_children("smb://host", results);
    assert_eq!(smb.len(), 5);
    assert_eq!(smb[2].name, "Zeta");
    assert_eq!(smb[1].uri, "smb://host/share");
}

#[test]
fn exports_are_trimmed_sorted_and_unique() {
    let raw = vec!["/mnt/b/".to_string(), "/mnt/a".to_string(), "/mnt/b".to_string(), "/".to_string()];
    assert_eq!(normalize_exports(&raw), vec!["".to_string(), "/mnt/a".to_string(), "/mnt/b".to_string()]);
}

#[test]
fn pseudo_roots_list_exports() {
    let exports = vec!["/mnt/4TBP".to_string(), "/srv".to_string()];
    let listing = nfs_root_listing("DietPi.local", "/mnt", &exports).unwrap();
    assert_eq!(
        names(&listing),
        vec![
            ("4TBP".to_string(), "nfs://DietPi.local/mnt/4TBP".to_string(), true),
            ("srv".to_string(), "nfs://DietPi.local/srv".to_string(), true),
        ]
    );
    assert!(nfs_root_listing("h", "/mnt/4TBP", &exports).is_none());
    assert!(nfs_root_metadata("/exports").unwrap().is_dir);
    assert!(nfs_root_metadata("/data").is_none());
}

#[test]
fn discovery_keeps_private_services_sorted_and_deduplicated() {
    let found = vec![
        ("beta".to_string(), "smb://beta/".to_string()),
        ("Alpha".to_string(), "nfs://alpha/".to_string()),
        ("web".to_string(), "http://web/".to_string()),
        ("alpha".to_string(), "nfs://alpha/".to_string()),
    ];
    let shares = discovered_shares(found);
    assert_eq!(shares.len(), 2);
    assert_eq!(shares[0].name, "Alpha");
    assert_eq!(shares[1].uri, "smb://beta/");
}

#[test]
fn subnet_scan_fills_servers_and_keeps_first_of_each_uri() {
    let entry = |name: &str, uri: &str, server: &str| Entry {
        name: name.to_string(),
        uri: uri.to_string(),
        is_dir: true,
        server: server.to_string(),
    };
    let found = vec![
        ("NAS".to_string(), vec![entry("photos", "smb://10.0.0.2/photos", ""), entry("Backup", "smb://10.0.0.2/backup", "Other")]),
        ("NAS2".to_string(), vec![entry("photos again", "smb://10.0.0.2/photos", "")]),
    ];
    let shares = scanned_shares(found);
    assert_eq!(shares.len(), 2);
    assert_eq!(shares[0].name, "Backup");
    assert_eq!(shares[0].server, "Other");
    assert_eq!(shares[1].name, "photos");
    assert_eq!(shares[1].server, "NAS");
}

#[test]
fn picker_opens_only_share_addresses() {
    assert_eq!(picker_load("network:///"), PickerLoad::Discover);
    assert_eq!(picker_load("  network:///  "), PickerLoad::Discover);
    assert_eq!(picker_load("Ella.local"), PickerLoad::List("smb://Ella.local/".to_string()));
    assert_eq!(picker_load("nfs://nas/export"), PickerLoad::List("nfs://nas/export".to_string()));
    assert_eq!(picker_load("http://example.com"), PickerLoad::NotAnAddress);
    assert_eq!(picker_load("   "), PickerLoad::NotAnAddress);
}

#[test]
fn picker_up_walks_to_the_parent_folder() {
    assert_eq!(up_target("network:///"), None);
    assert_eq!(up_target("scan:///"), None);
    assert_eq!(up_target("smb://nas/share/Photos/"), Some("smb://nas/share".to_string()));
    assert_eq!(up_target("smb://nas/share"), Some("smb://nas".to_string()));
    assert_eq!(up_target("smb://nas"), Some("network:///".to_string()));
    assert_eq!(up_target("nfs://nas/"), Some("network:///".to_string()));
    assert_eq!(up_target("nas"), Some("network:///".to_string()));
}

#[test]
fn picker_texts_and_import() {
    let (address, location, status) = listing_texts("network:///", 3);
    assert_eq!(address, "");
    assert_eq!(location, "Network shares");
    assert_eq!(status, "3 folders and photos found \u{2014} double-click a folder to open it");
    let (address, location, status) = listing_texts("scan:///", 12);
    assert_eq!(address, "");
    assert_eq!(location, "Scan results: shares found across servers");
    assert_eq!(status, "12 shares found by probing the subnet \u{2014} double-click a folder, or Up to return");
    let (address, location, _) = listing_texts("smb://nas/share", 0);
    assert_eq!(address, "smb://nas/share");
    assert_eq!(location, "smb://nas/share");
    assert_eq!(row_label("Photos", true), "\u{1F4C1} Photos");
    assert_eq!(row_label("a.jpg", false), "\u{1F5BC} a.jpg");
    assert_eq!(open_failure_text("smb://nas", "denied"), "Could not open smb://nas: denied");
    assert!(importable("smb://nas/share"));
    assert!(!importable("network:///"));
    assert!(!importable("scan:///"));
}

#[test]
fn local_hosts_resolve_once_and_route_directly() {
    let mut hosts = LocalAddresses::new();
    assert_eq!(hosts.route("smb://nas/share/a.jpg"), Routing::Direct("smb://nas/share/a.jpg".to_string()));
    assert_eq!(hosts.route("smb://Ella.local:445/share/a.jpg"), Routing::Resolve("Ella.local".to_string()));
    hosts.remember("Ella.local".to_string(), Some("192.168.1.20".to_string()));
    assert_eq!(
        hosts.route("smb://Ella.local:445/share/a.jpg"),
        Routing::Direct("smb://192.168.1.20:445/share/a.jpg".to_string())
    );
    assert_eq!(hosts.lookup("Ella.local"), Some("192.168.1.20".to_string()));
    hosts.remember("pi.LOCAL".to_string(), None);
    assert_eq!(hosts.route("nfs://pi.LOCAL/export/x"), Routing::Direct("nfs://pi.LOCAL/export/x".to_string()));
    assert_eq!(hosts.lookup("other.local"), None);
}

#[test]
fn transport_reads_back_encoded_segments() {
    for segment in ["Holiday 2024", "caf\u{e9} & bar", "100%", "a/b", "(x)~._-", "\u{1F4F7} photos", ""] {
        assert_eq!(transport::decode(&encode(segment)), segment);
    }
}
