use ailed_soulsteal::filter::elo::EloFilter;
use ailed_soulsteal::filter::moves::MovesFilter;
use ailed_soulsteal::filter::result::ResultFilter;
use ailed_soulsteal::filter::{FilterChain, FilterOptionError, GameFilter};
use ailed_soulsteal::game::RawGame;
use ailed_soulsteal::StringHashMap;

fn raw(tags: &[(&str, &str)], moves: &[&str], result: Option<&str>) -> RawGame {
    let mut t = StringHashMap::new();
    for (k, v) in tags {
        t.insert(k.to_string(), v.to_string());
    }
    RawGame {
        tags: t,
        moves: moves.iter().map(|m| m.to_string()).collect(),
        result: result.map(|r| r.to_string()),
    }
}

#[test]
fn elo_range_parses() {
    let f = EloFilter::from_str("1000:1800").expect("valid range");
    let g = raw(&[("WhiteElo", "1000"), ("BlackElo", "1800")], &[], None);
    assert!(f.accept(&g));
    let g = raw(&[("WhiteElo", "999"), ("BlackElo", "1500")], &[], None);
    assert!(!f.accept(&g));
    let g = raw(&[("WhiteElo", "1500"), ("BlackElo", "1801")], &[], None);
    assert!(!f.accept(&g));
}

#[test]
fn elo_range_rejects_bad_forms() {
    assert!(EloFilter::from_str("1000").is_none());
    assert!(EloFilter::from_str("1000:1800:2000").is_none());
    assert!(EloFilter::from_str("a:1800").is_none());
    assert!(EloFilter::from_str("1000:").is_none());
    assert!(EloFilter::from_str(":1800").is_none());
    assert!(EloFilter::from_str("1000:70000").is_none());
    assert!(EloFilter::from_str("-5:10").is_none());
    assert!(EloFilter::from_str("+:10").is_none());
}

#[test]
fn elo_range_accepts_plus_sign_and_max() {
    let f = EloFilter::from_str("+0:65535").expect("valid range");
    let g = raw(&[("WhiteElo", "65535"), ("BlackElo", "0")], &[], None);
    assert!(f.accept(&g));
}

#[test]
fn elo_filter_needs_both_ratings() {
    let f = EloFilter::new(0, 3000);
    assert!(!f.accept(&raw(&[("WhiteElo", "1500")], &[], None)));
    assert!(!f.accept(&raw(&[("WhiteElo", "1500"), ("BlackElo", "?")], &[], None)));
    assert!(f.accept(&raw(&[("WhiteElo", "1500"), ("BlackElo", "1600")], &[], None)));
}

#[test]
fn moves_filter_bounds() {
    let g = raw(&[], &["e4", "e5", "Nf3"], None);
    assert!(MovesFilter::new(Some(3), None).accept(&g));
    assert!(!MovesFilter::new(Some(4), None).accept(&g));
    assert!(MovesFilter::new(None, Some(3)).accept(&g));
    assert!(!MovesFilter::new(None, Some(2)).accept(&g));
    assert!(MovesFilter::new(None, None).accept(&g));
}

#[test]
fn result_filter_from_str() {
    assert!(matches!(ResultFilter::from_str("decisive"), Some(ResultFilter::Decisive)));
    assert!(matches!(ResultFilter::from_str("draws"), Some(ResultFilter::DrawsOnly)));
    assert!(matches!(ResultFilter::from_str("all"), Some(ResultFilter::All)));
    assert!(ResultFilter::from_str("wins").is_none());
    assert!(ResultFilter::from_str("").is_none());
}

#[test]
fn result_filter_accepts() {
    let win = raw(&[], &[], Some("1-0"));
    let loss = raw(&[], &[], Some("0-1"));
    let draw = raw(&[], &[], Some("1/2-1/2"));
    let unknown = raw(&[], &[], Some("*"));
    let none = raw(&[], &[], None);
    assert!(ResultFilter::Decisive.accept(&win));
    assert!(ResultFilter::Decisive.accept(&loss));
    assert!(!ResultFilter::Decisive.accept(&draw));
    assert!(!ResultFilter::Decisive.accept(&none));
    assert!(ResultFilter::DrawsOnly.accept(&draw));
    assert!(!ResultFilter::DrawsOnly.accept(&win));
    assert!(ResultFilter::All.accept(&unknown));
    assert!(ResultFilter::All.accept(&none));
}

#[test]
fn chain_needs_all_filters() {
    let mut chain = FilterChain::new();
    assert!(chain.is_empty());
    let g = raw(&[("WhiteElo", "1500"), ("BlackElo", "1600")], &["e4", "e5", "Nf3", "Nc6"], Some("1-0"));
    assert!(chain.accept(&g));
    chain.add(Box::new(EloFilter::new(1000, 1800)));
    chain.add(Box::new(MovesFilter::new(Some(4), None)));
    assert!(!chain.is_empty());
    assert!(chain.accept(&g));
    chain.add(Box::new(ResultFilter::DrawsOnly));
    assert!(!chain.accept(&g));
}

#[test]
fn chain_from_options() {
    let c = FilterChain::from_options(Some("1000:1800"), 4, "decisive").expect("valid options");
    let good = raw(&[("WhiteElo", "1200"), ("BlackElo", "1300")], &["e4", "e5", "Nf3", "Nc6"], Some("0-1"));
    assert!(c.accept(&good));
    let short = raw(&[("WhiteElo", "1200"), ("BlackElo", "1300")], &["e4", "e5", "Nf3"], Some("0-1"));
    assert!(!c.accept(&short));
    let draw = raw(&[("WhiteElo", "1200"), ("BlackElo", "1300")], &["e4", "e5", "Nf3", "Nc6"], Some("1/2-1/2"));
    assert!(!c.accept(&draw));
    let strong = raw(&[("WhiteElo", "2200"), ("BlackElo", "1300")], &["e4", "e5", "Nf3", "Nc6"], Some("1-0"));
    assert!(!c.accept(&strong));
}

#[test]
fn chain_from_default_options() {
    let c = FilterChain::from_options(None, 0, "all").expect("valid options");
    assert!(c.is_empty());
    assert!(c.accept(&raw(&[], &[], None)));
    let c = FilterChain::from_options(None, 4, "all").expect("valid options");
    assert!(!c.is_empty());
    assert!(!c.accept(&raw(&[], &["e4"], None)));
    let c = FilterChain::from_options(None, 0, "draws").expect("valid options");
    assert!(c.accept(&raw(&[], &[], Some("1/2-1/2"))));
    assert!(!c.accept(&raw(&[], &[], Some("1-0"))));
}

#[test]
fn chain_option_errors() {
    assert!(matches!(FilterChain::from_options(Some("1000-1800"), 4, "all"), Err(FilterOptionError::InvalidElo)));
    assert!(matches!(FilterChain::from_options(None, 4, "wins"), Err(FilterOptionError::InvalidResult)));
    assert!(matches!(FilterChain::from_options(Some("x"), 4, "wins"), Err(FilterOptionError::InvalidElo)));
}
