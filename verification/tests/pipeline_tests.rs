use ailed_soulsteal::filter::FilterChain;
use ailed_soulsteal::game::RawGame;
use ailed_soulsteal::pipeline::{GameStep, TokenizeTally};
use ailed_soulsteal::vocab::Vocab;
use ailed_soulsteal::StringHashMap;

fn raw(tags: &[(&str, &str)], moves: &[&str], result: Option<&str>) -> RawGame {
    let mut t = StringHashMap::new();
    for (k, v) in tags {
        t.insert(k.to_string(), v.to_string());
    }
    RawGame {
        tags: t,
        moves: moves.iter().map(|m| m.to_string()).collect(),
        result: result.map(|r| r.to_string()),
    }
}

#[test]
fn tally_counts_each_outcome() {
    let vocab = Vocab::generate_from_pgn().expect("generation succeeds");
    let filters = FilterChain::from_options(None, 4, "decisive").expect("valid options");
    let mut t = TokenizeTally::new();
    let good = raw(&[], &["e4", "e5", "Nf3", "Nc6"], Some("1-0"));
    match t.process(&good, &filters, &vocab, Some(1)) {
        GameStep::Tokenized(g) => {
            assert_eq!(g.token_ids.len(), 7);
            assert_eq!(g.outcome, 0);
        }
        _ => panic!("expected tokens"),
    }
    let draw = raw(&[], &["e4", "e5", "Nf3", "Nc6"], Some("1/2-1/2"));
    assert!(matches!(t.process(&draw, &filters, &vocab, Some(1)), GameStep::Filtered));
    assert_eq!((t.parsed, t.filtered, t.tokenized, t.failed, t.stopped), (2, 1, 1, 0, false));
    assert!(matches!(t.process(&good, &filters, &vocab, Some(1)), GameStep::LimitReached));
    assert_eq!((t.parsed, t.filtered, t.tokenized, t.failed, t.stopped), (3, 1, 1, 0, true));
}

#[test]
fn tally_counts_failures() {
    let vocab = Vocab::generate_from_pgn().expect("generation succeeds");
    let filters = FilterChain::from_options(None, 0, "all").expect("valid options");
    let mut t = TokenizeTally::new();
    let illegal = raw(&[], &["e4", "e5", "Ke3", "Nc6"], Some("1-0"));
    assert!(matches!(t.process(&illegal, &filters, &vocab, None), GameStep::Failed));
    let short = raw(&[], &["e4"], None);
    assert!(matches!(t.process(&short, &filters, &vocab, None), GameStep::Failed));
    assert_eq!((t.parsed, t.filtered, t.tokenized, t.failed), (2, 0, 0, 2));
    assert!(t.progress_due());
}
