use image_scrapper::cli::{download_args_valid, Cli, DownloadArgs, SubCommands};
use image_scrapper::cookies::raw_cookie;
use image_scrapper::data::{Data, ImageInfo};
use image_scrapper::digest::fingerprint_hex;
use image_scrapper::extract::extract_from_page;
use image_scrapper::extract::image_urls;
use image_scrapper::pipeline::{fix_entry, record_page, transfer_items};

fn two_records() -> Vec<ImageInfo> {
    vec![
        ImageInfo { name: Some("a.jpg".to_string()), url: "https://ex.test/i/a.jpg".to_string() },
        ImageInfo { name: None, url: "https://ex.test/i/b.jpg".to_string() },
    ]
}

#[test]
fn record_page_inserts_new_fingerprint() {
    let mut data = Data::new();
    let changed = record_page(&mut data, "abcd".to_string(), two_records(), true);
    assert!(changed);
    assert!(data.contains_key("abcd"));
    assert_eq!(data.len(), 1);
}

#[test]
fn failed_transfers_never_reach_the_database() {
    let mut data = Data::new();
    let changed = record_page(&mut data, "abcd".to_string(), two_records(), false);
    assert!(!changed);
    assert!(!data.contains_key("abcd"));
    assert_eq!(data.len(), 0);
}

#[test]
fn second_run_is_a_no_op() {
    let mut data = Data::new();
    assert!(record_page(&mut data, "abcd".to_string(), two_records(), true));
    let changed = record_page(&mut data, "abcd".to_string(), two_records(), true);
    assert!(!changed);
    assert_eq!(data.len(), 1);
}

#[test]
fn fix_skips_when_directory_exists() {
    let r = fix_entry(true, &two_records());
    assert!(r.is_none());
}

#[test]
fn fix_redownloads_recorded_urls_under_recorded_names() {
    let items = fix_entry(false, &two_records()).unwrap();
    assert_eq!(items.len(), 2);
    assert_eq!(items[0].url, "https://ex.test/i/a.jpg");
    assert_eq!(items[0].name, "a.jpg");
    assert_eq!(items[1].url, "https://ex.test/i/b.jpg");
    assert_eq!(items[1].name, "b.jpg");
}

#[test]
fn transfer_items_fall_back_to_path_segment() {
    let infos = vec![ImageInfo { name: None, url: "https://ex.test/x/y.png".to_string() }];
    let items = transfer_items(&infos);
    assert_eq!(items[0].name, "y.png");
}

#[test]
fn download_requires_urls() {
    let none = DownloadArgs { cookie_file: None, data_path: None, url: vec![] };
    assert!(!download_args_valid(&none));
    let one = DownloadArgs {
        cookie_file: None,
        data_path: None,
        url: vec!["https://ex.test/g.html".to_string()],
    };
    assert!(download_args_valid(&one));
}

#[test]
fn stored_records_are_retrievable() {
    let mut data = Data::new();
    assert!(data.get("abcd").is_none());
    record_page(&mut data, "abcd".to_string(), two_records(), true);
    let stored = data.get("abcd").unwrap();
    assert_eq!(stored, &two_records());
    assert_eq!(data.key_at(0), "abcd");
    assert_eq!(data.infos_at(0), &two_records());
}

#[test]
fn cli_carries_the_download_arguments() {
    let cli = Cli {
        subcmd: SubCommands::Download(DownloadArgs {
            cookie_file: Some("./cookies.json".to_string()),
            data_path: Some("./data.bin".to_string()),
            url: vec!["https://ex.test/g.html".to_string()],
        }),
    };
    match cli.subcmd {
        SubCommands::Download(args) => {
            assert!(download_args_valid(&args));
            assert_eq!(args.cookie_file.as_deref(), Some("./cookies.json"));
        }
        _ => panic!("wrong subcommand"),
    }
}

#[test]
fn raw_cookie_joins_name_and_value() {
    assert_eq!(raw_cookie("sid", "12345"), "sid=12345");
    assert_eq!(raw_cookie("", ""), "=");
}

#[test]
fn page_pipeline_dedups_second_visit() {
    let html = "<html><body>\
        <img src=\"i/a.jpg\" alt=\"a.jpg\">\
        <img src=\"i/b.jpg\" alt=\"b.jpg\">\
        </body></html>";
    let page = "https://ex.test/g.html";
    let mut data = Data::new();

    let infos = extract_from_page(html, page).unwrap();
    let fp = fingerprint_hex(&image_urls(&infos));
    assert!(!data.contains_key(fp.as_str()));
    let items = transfer_items(&infos);
    assert_eq!(items.len(), 2);
    let changed = record_page(&mut data, fp.clone(), infos, true);
    assert!(changed);

    let infos2 = extract_from_page(html, page).unwrap();
    let fp2 = fingerprint_hex(&image_urls(&infos2));
    assert_eq!(fp, fp2);
    assert!(data.contains_key(fp2.as_str()));
    let changed2 = record_page(&mut data, fp2, infos2, true);
    assert!(!changed2);
    assert_eq!(data.len(), 1);
}

#[test]
fn permuted_page_has_same_fingerprint() {
    let one = "<html><body>\
        <img src=\"i/a.jpg\"><img src=\"i/b.jpg\">\
        </body></html>";
    let two = "<html><body>\
        <img src=\"i/b.jpg\"><img src=\"i/a.jpg\">\
        </body></html>";
    let page = "https://ex.test/g.html";
    let fp1 = fingerprint_hex(&image_urls(&extract_from_page(one, page).unwrap()));
    let fp2 = fingerprint_hex(&image_urls(&extract_from_page(two, page).unwrap()));
    assert_eq!(fp1, fp2);
}
