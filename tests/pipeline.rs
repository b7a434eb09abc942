use sample_fetcher::catalog::{
    catalog_from_locations, catalog_from_sitemap, extension_of_url, join_with_spaces, validate,
};
use sample_fetcher::download::derive_filename;
use sample_fetcher::error::{check_catalog_status, check_status, FatalError, StageError};
use sample_fetcher::extension::{normalize_extension, requested_extensions};
use sample_fetcher::map::ExtensionMap;
use sample_fetcher::resolve::{link_from_candidates, link_from_landing_page};
use sample_fetcher::stage::{first_failure, join_downloads, join_resolutions};

fn s(x: &str) -> String {
    x.to_string()
}

fn map_of(pairs: &[(&str, &str)]) -> ExtensionMap {
    let mut m = ExtensionMap::new();
    for (k, v) in pairs {
        m.insert(s(k), s(v));
    }
    m
}

fn pairs(m: &ExtensionMap) -> Vec<(String, String)> {
    let mut v = m.entries().clone();
    v.sort();
    v
}

const PDF_PAGE: &str = "https://www.dwsamplefiles.com/download-pdf-sample-files/";
const MP3_PAGE: &str = "https://www.dwsamplefiles.com/download-mp3-sample-files/";

#[test]
fn normalize_lowercases_and_strips_leading_dot() {
    assert_eq!(normalize_extension(".JPG"), "jpg");
    assert_eq!(normalize_extension("PdF"), "pdf");
    assert_eq!(normalize_extension("mp3"), "mp3");
    assert_eq!(normalize_extension("..tar.GZ"), "targz");
    assert_eq!(normalize_extension("tar.gz"), "tar.gz");
    assert_eq!(normalize_extension(""), "");
}

#[test]
fn normalize_is_idempotent() {
    for raw in [".JPG", "pdf", "..Tar.Gz", "tar.GZ", ".", "", "Ä.x", "MP3"] {
        let once = normalize_extension(raw);
        assert_eq!(normalize_extension(&once), once);
    }
}

#[test]
fn requested_extensions_reads_last_argument() {
    let args = vec![s("tool"), s("pdf,.JPG,mp3")];
    assert_eq!(requested_extensions(&args), Ok(vec![s("pdf"), s("jpg"), s("mp3")]));
}

#[test]
fn requested_extensions_drops_empty_pieces() {
    assert_eq!(requested_extensions(&vec![s("tool"), s("pdf,")]), Ok(vec![s("pdf")]));
    assert_eq!(
        requested_extensions(&vec![s("tool"), s("pdf,,.,MP3")]),
        Ok(vec![s("pdf"), s("mp3")])
    );
    assert_eq!(requested_extensions(&vec![s("tool"), s("")]), Ok(vec![]));
}

#[test]
fn requested_extensions_keeps_normalized_tokens() {
    let args = vec![s("tool"), s("pdf,jpg,mp3")];
    assert_eq!(requested_extensions(&args), Ok(vec![s("pdf"), s("jpg"), s("mp3")]));
}

#[test]
fn requested_extensions_pdf_zzz() {
    let args = vec![s("tool"), s("pdf,zzz")];
    assert_eq!(requested_extensions(&args), Ok(vec![s("pdf"), s("zzz")]));
}

#[test]
fn requested_extensions_without_argument_fails() {
    assert_eq!(requested_extensions(&vec![s("tool")]), Err(FatalError::MissingArgument));
    assert_eq!(requested_extensions(&vec![]), Err(FatalError::MissingArgument));
}

#[test]
fn filename_from_content_disposition() {
    assert_eq!(derive_filename("pdf", Some("attachment; filename=report.pdf;")), "report.pdf");
}

#[test]
fn filename_default_without_header() {
    assert_eq!(derive_filename("pdf", None), "new_file.pdf");
}

#[test]
fn filename_default_with_empty_header() {
    assert_eq!(derive_filename("mp3", Some("")), "new_file.mp3");
}

#[test]
fn filename_strips_every_semicolon() {
    assert_eq!(derive_filename("txt", Some("a;b;c.txt")), "abc.txt");
}

#[test]
fn extension_token_extraction() {
    assert_eq!(
        extension_of_url("https://www.dwsamplefiles.com/download-pdf-sample"),
        Some(s("pdf"))
    );
    assert_eq!(extension_of_url(PDF_PAGE), Some(s("pdf")));
}

#[test]
fn extension_of_other_url_is_none() {
    assert_eq!(extension_of_url("https://www.dwsamplefiles.com/about-us/"), None);
}

#[test]
fn join_with_spaces_joins_fragments() {
    assert_eq!(join_with_spaces(&vec![s("a"), s("b"), s("c")]), "a b c");
    assert_eq!(join_with_spaces(&vec![]), "");
}

#[test]
fn catalog_from_locations_skips_other_urls() {
    let nodes = vec![
        vec![s(PDF_PAGE)],
        vec![s("https://www.dwsamplefiles.com/about-us/")],
        vec![s(MP3_PAGE)],
    ];
    let catalog = catalog_from_locations(&nodes);
    assert_eq!(pairs(&catalog), vec![(s("mp3"), s(MP3_PAGE)), (s("pdf"), s(PDF_PAGE))]);
}

#[test]
fn catalog_duplicate_extension_last_wins() {
    let later = "https://www.dwsamplefiles.com/download-pdf-other-files/";
    let nodes = vec![vec![s(PDF_PAGE)], vec![s(later)]];
    let catalog = catalog_from_locations(&nodes);
    assert_eq!(pairs(&catalog), vec![(s("pdf"), s(later))]);
}

#[test]
fn catalog_from_sitemap_document() {
    let body = format!(
        "<?xml version=\"1.0\"?><urlset><url><loc>{PDF_PAGE}</loc></url>\
         <url><loc>https://www.dwsamplefiles.com/</loc></url>\
         <url><loc>{MP3_PAGE}</loc></url></urlset>"
    );
    let catalog = catalog_from_sitemap(&body);
    assert_eq!(pairs(&catalog), vec![(s("mp3"), s(MP3_PAGE)), (s("pdf"), s(PDF_PAGE))]);
}

#[test]
fn validate_warns_and_keeps_offered() {
    let catalog = map_of(&[("pdf", PDF_PAGE), ("mp3", MP3_PAGE)]);
    let (unsupported, verified) = validate(&vec![s("pdf"), s("zzz")], &catalog);
    assert_eq!(unsupported, vec![s("zzz")]);
    let verified = verified.unwrap();
    assert_eq!(pairs(&verified), vec![(s("pdf"), s(PDF_PAGE))]);
}

#[test]
fn validate_with_nothing_offered_is_fatal() {
    let catalog = map_of(&[("pdf", PDF_PAGE)]);
    let (unsupported, verified) = validate(&vec![s("zzz"), s("yyy")], &catalog);
    assert_eq!(unsupported, vec![s("zzz"), s("yyy")]);
    assert_eq!(verified.err(), Some(FatalError::NoValidExtensions));
}

#[test]
fn status_checks() {
    assert_eq!(check_status(&s("pdf"), 200), Ok(()));
    assert_eq!(
        check_status(&s("pdf"), 404),
        Err(StageError::Status { extension: s("pdf"), status: 404 })
    );
    assert_eq!(check_catalog_status(200), Ok(()));
    assert_eq!(check_catalog_status(500), Err(FatalError::CatalogStatus { status: 500 }));
}

#[test]
fn landing_page_link() {
    let body = "<html><body><div class=\"download-manager\">\
                <a href=\"https://files.example/sample.pdf\">Download</a></div>\
                <a href=\"https://elsewhere.example/\">x</a></body></html>";
    assert_eq!(
        link_from_landing_page(&s("pdf"), body),
        Ok(Some(s("https://files.example/sample.pdf")))
    );
}

#[test]
fn landing_page_last_link_wins() {
    let body = "<div class=\"download-manager\"><a href=\"one\">1</a><a href=\"two\">2</a></div>";
    assert_eq!(link_from_landing_page(&s("pdf"), body), Ok(Some(s("two"))));
}

#[test]
fn landing_page_missing_href_fails() {
    let body = "<div class=\"download-manager\"><a href=\"one\">1</a><a>2</a></div>";
    assert_eq!(
        link_from_landing_page(&s("pdf"), body),
        Err(StageError::MissingLink { extension: s("pdf") })
    );
}

#[test]
fn landing_page_without_links_finds_nothing() {
    assert_eq!(link_from_landing_page(&s("pdf"), "<p>nothing</p>"), Ok(None));
    assert_eq!(link_from_candidates(&s("pdf"), &vec![]), Ok(None));
}

#[test]
fn first_failure_is_earliest() {
    let outcomes: Vec<Result<String, StageError>> = vec![
        Ok(s("a")),
        Err(StageError::MissingLink { extension: s("b") }),
        Err(StageError::MissingLink { extension: s("c") }),
    ];
    assert_eq!(first_failure(&outcomes), Some(1));
}

#[test]
fn resolution_merges_all_successes() {
    let verified = map_of(&[("pdf", PDF_PAGE), ("mp3", MP3_PAGE)]);
    let targets = join_resolutions(&verified, vec![Ok(Some(s("u1"))), Ok(Some(s("u2")))]).unwrap();
    assert_eq!(pairs(&targets), vec![(s("mp3"), s("u2")), (s("pdf"), s("u1"))]);
}

#[test]
fn resolution_order_does_not_matter() {
    let a = map_of(&[("pdf", PDF_PAGE), ("mp3", MP3_PAGE)]);
    let b = map_of(&[("mp3", MP3_PAGE), ("pdf", PDF_PAGE)]);
    let ta = join_resolutions(&a, vec![Ok(Some(s("u1"))), Ok(Some(s("u2")))]).unwrap();
    let tb = join_resolutions(&b, vec![Ok(Some(s("u2"))), Ok(Some(s("u1")))]).unwrap();
    assert_eq!(pairs(&ta), pairs(&tb));
}

#[test]
fn resolution_fails_fast() {
    let verified = map_of(&[("pdf", PDF_PAGE), ("mp3", MP3_PAGE), ("jpg", "j")]);
    let r = join_resolutions(
        &verified,
        vec![
            Ok(Some(s("u1"))),
            Err(StageError::MissingLink { extension: s("mp3") }),
            Err(StageError::Status { extension: s("jpg"), status: 500 }),
        ],
    );
    assert_eq!(r.err(), Some(StageError::MissingLink { extension: s("mp3") }));
}

#[test]
fn end_to_end_one_unknown_extension() {
    let requested = requested_extensions(&vec![s("tool"), s("pdf,zzz")]).unwrap();
    let catalog = catalog_from_locations(&vec![vec![s(PDF_PAGE)], vec![s(MP3_PAGE)]]);
    let (unsupported, verified) = validate(&requested, &catalog);
    assert_eq!(unsupported, vec![s("zzz")]);
    let verified = verified.unwrap();
    assert_eq!(verified.len(), 1);
    let page = "<div class=\"download-manager\"><a href=\"https://f.example/a.pdf\">d</a></div>";
    let outcomes: Vec<_> = verified
        .entries()
        .iter()
        .map(|(ext, _)| link_from_landing_page(ext, page))
        .collect();
    let targets = join_resolutions(&verified, outcomes).unwrap();
    assert_eq!(pairs(&targets), vec![(s("pdf"), s("https://f.example/a.pdf"))]);
    let outcomes: Vec<_> = targets
        .entries()
        .iter()
        .map(|(ext, _)| Ok(derive_filename(ext, None)))
        .collect();
    let files = join_downloads(&targets, outcomes).unwrap();
    assert_eq!(pairs(&files), vec![(s("pdf"), s("new_file.pdf"))]);
}

#[test]
fn end_to_end_failed_download_reports_no_success() {
    let requested = requested_extensions(&vec![s("tool"), s("pdf,mp3")]).unwrap();
    let catalog = catalog_from_locations(&vec![vec![s(PDF_PAGE)], vec![s(MP3_PAGE)]]);
    let (unsupported, verified) = validate(&requested, &catalog);
    assert!(unsupported.is_empty());
    let verified = verified.unwrap();
    let outcomes = vec![Ok(Some(s("https://f.example/a.pdf"))), Ok(Some(s("https://f.example/a.mp3")))];
    let targets = join_resolutions(&verified, outcomes).unwrap();
    let outcomes: Vec<Result<String, StageError>> = targets
        .entries()
        .iter()
        .map(|(ext, _)| {
            if ext == "mp3" {
                check_status(ext, 404).map(|_| s("unused"))
            } else {
                Ok(derive_filename(ext, None))
            }
        })
        .collect();
    let r = join_downloads(&targets, outcomes);
    assert_eq!(r.err(), Some(StageError::Status { extension: s("mp3"), status: 404 }));
}

#[test]
fn map_insert_replaces_value() {
    let mut m = ExtensionMap::new();
    m.insert(s("pdf"), s("a"));
    m.insert(s("mp3"), s("b"));
    m.insert(s("pdf"), s("c"));
    assert_eq!(m.len(), 2);
    assert_eq!(m.get(&s("pdf")), Some(s("c")));
    assert!(m.contains_key(&s("mp3")));
    assert!(!m.contains_key(&s("jpg")));
    assert_eq!(m.get(&s("jpg")), None);
}
