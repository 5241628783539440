use proxynexus::card_source::{Cardlist, NrdbUrl, SetName};
use proxynexus::local_image_provider::LocalImageProvider;
use proxynexus::options::{determine_input_source, parse_cut_lines, parse_print_layout, InputSource};
use proxynexus::pdf::{CutLines, PrintLayout};

#[test]
fn card_list_comes_first() {
    assert_eq!(
        determine_input_source(Some("a".into()), Some("b".into()), Some("c".into())),
        InputSource::Cardlist("a".into())
    );
    assert_eq!(determine_input_source(None, Some("b".into()), Some("c".into())), InputSource::SetName("b".into()));
    assert_eq!(determine_input_source(None, None, Some("c".into())), InputSource::NrdbUrl("c".into()));
}

#[test]
fn cut_lines_by_name() {
    assert_eq!(parse_cut_lines(None), Ok(CutLines::Margins));
    assert_eq!(parse_cut_lines(Some("none")), Ok(CutLines::NoLines));
    assert_eq!(parse_cut_lines(Some("margins")), Ok(CutLines::Margins));
    assert_eq!(parse_cut_lines(Some("fullpage")), Ok(CutLines::FullPage));
    assert_eq!(
        parse_cut_lines(Some("all")),
        Err("Unsupported cut lines option: 'all'. Options are 'none', 'margins', or 'fullpage'".to_string())
    );
    assert_eq!(CutLines::default(), CutLines::Margins);
}

#[test]
fn print_layout_by_name() {
    assert_eq!(parse_print_layout("edge-to-edge"), Ok(PrintLayout::EdgeToEdge));
    assert_eq!(parse_print_layout("narrow-gap"), Ok(PrintLayout::Gap));
    assert_eq!(parse_print_layout("wide-gap"), Ok(PrintLayout::Gap));
    assert_eq!(
        parse_print_layout("gap"),
        Err("Unsupported print layout: 'gap'. Options are 'edge-to-edge', 'small-margin', 'large-margin', 'narrow-gap', 'wide-gap'".to_string())
    );
    assert_eq!(parse_print_layout("small-margin"), Ok(PrintLayout::SmallMargin));
    assert_eq!(parse_print_layout("large-margin"), Ok(PrintLayout::LargeMargin));
    assert!(parse_print_layout("Gap").is_err());
    assert_eq!(PrintLayout::default(), PrintLayout::EdgeToEdge);
}

#[test]
fn sources_hold_their_text() {
    assert_eq!(Cardlist("1x Sure Gamble".into()).0, "1x Sure Gamble");
    assert_eq!(SetName("Core Set".into()).0, "Core Set");
    assert_eq!(NrdbUrl("https://netrunnerdb.com/en/decklist/1".into()).0, "https://netrunnerdb.com/en/decklist/1");
}

#[test]
fn local_images_lie_below_the_base() {
    let p = LocalImageProvider::new("/data/collections".into());
    assert_eq!(p.image_path("core/01001.jpg"), "/data/collections/core/01001.jpg");
    assert_eq!(p.image_path("/abs.jpg"), "/abs.jpg");
}
