use ailed_soulsteal::game::board::{uci_string, ChessMove};
use ailed_soulsteal::game::chess::{
    parse_san_moves, parse_tag, tokens_from_moves, ChessTokenizer, PgnParser,
};
use ailed_soulsteal::game::convert::game_to_ugn;
use ailed_soulsteal::game::ugn::{is_result_token, parse_inline_tags, strip_annotations, UgnParser};
use ailed_soulsteal::game::{GameParser, GameTokenizer, RawGame};
use ailed_soulsteal::vocab::Vocab;
use ailed_soulsteal::StringHashMap;

fn raw(tags: &[(&str, &str)], moves: &[&str], result: Option<&str>) -> RawGame {
    let mut t = StringHashMap::new();
    for (k, v) in tags {
        t.insert(k.to_string(), v.to_string());
    }
    RawGame {
        tags: t,
        moves: moves.iter().map(|m| m.to_string()).collect(),
        result: result.map(|r| r.to_string()),
    }
}

fn tag<'a>(g: &'a RawGame, k: &str) -> Option<&'a str> {
    g.tags.get(k).map(|s| s.as_str())
}

fn feed<P: GameParser>(p: &mut P, text: &str) -> Vec<RawGame> {
    let mut games = Vec::new();
    for line in text.lines() {
        if let Some(g) = p.push_line(line) {
            games.push(g);
        }
    }
    if let Some(g) = p.finish() {
        games.push(g);
    }
    games
}

#[test]
fn pgn_tag_line() {
    assert_eq!(parse_tag("[White \"Magnus Carlsen\"]"), Some(("White".to_string(), "Magnus Carlsen".to_string())));
    assert_eq!(parse_tag("[Result \"1-0\"]"), Some(("Result".to_string(), "1-0".to_string())));
    assert_eq!(parse_tag("[NoValue]"), None);
    assert_eq!(parse_tag("[[Key   \"\"v\"\"  ]]"), Some(("Key".to_string(), "v".to_string())));
}

#[test]
fn pgn_movetext() {
    let m = parse_san_moves("1. e4 e5 2. Nf3 {a quiet move} Nc6 3. Bb5 $1 a6 ( 3... Nf6 ) 1-0");
    assert_eq!(m, vec!["e4", "e5", "Nf3", "Nc6", "Bb5", "a6", "Nf6"]);
    let m = parse_san_moves("1... e5 2. d4 1/2-1/2 *");
    assert_eq!(m, vec!["e5", "d4"]);
    assert!(parse_san_moves("").is_empty());
}

#[test]
fn pgn_one_word_comment_is_skipped() {
    let m = parse_san_moves("1. e4 {Best} e5 2. Nf3 Nc6");
    assert_eq!(m, vec!["e4", "e5", "Nf3", "Nc6"]);
    let m = parse_san_moves("e4 {a {b} c} e5 { } Nf3 {} Nc6");
    assert_eq!(m, vec!["e4", "c}", "e5", "Nf3", "Nc6"]);
}

#[test]
fn pgn_parser_games() {
    let text = "[Event \"Test\"]\n[White \"A\"]\n[Result \"1-0\"]\n\n1. e4 e5\n2. Nf3 Nc6 1-0\n\n[Event \"Second\"]\n[Result \"0-1\"]\n\n1. d4 d5 0-1\n";
    let mut p = PgnParser::new();
    let games = feed(&mut p, text);
    assert_eq!(games.len(), 2);
    assert_eq!(games[0].moves, vec!["e4", "e5", "Nf3", "Nc6"]);
    assert_eq!(games[0].result.as_deref(), Some("1-0"));
    assert_eq!(tag(&games[0], "Event"), Some("Test"));
    assert_eq!(tag(&games[0], "White"), Some("A"));
    assert_eq!(games[1].moves, vec!["d4", "d5"]);
    assert_eq!(games[1].result.as_deref(), Some("0-1"));
}

#[test]
fn pgn_parser_tag_after_movetext_ends_game() {
    let text = "[Event \"One\"]\n1. e4 e5\n[Event \"Two\"]\n[Site \"X\"]\n1. d4\n";
    let mut p = PgnParser::new();
    let games = feed(&mut p, text);
    assert_eq!(games.len(), 2);
    assert_eq!(games[0].moves, vec!["e4", "e5"]);
    assert_eq!(tag(&games[1], "Event"), None);
    assert_eq!(tag(&games[1], "Site"), Some("X"));
    assert_eq!(games[1].moves, vec!["d4"]);
    assert_eq!(games[1].result, None);
}

#[test]
fn pgn_parser_ignores_text_before_tags() {
    let mut p = PgnParser::new();
    assert!(feed(&mut p, "1. e4 e5\n\n").is_empty());
}

#[test]
fn ugn_result_tokens() {
    for t in ["1-0", "0-1", "1/2", "1/2-1/2", "*", "1-0R", "0-1T", "1-0A", "B+2.5", "W+R"] {
        assert!(is_result_token(t), "{}", t);
    }
    for t in ["e2e4", "1-1", "", "R", "B", "B2.5", "Q16", "pass", "0"] {
        assert!(!is_result_token(t), "{}", t);
    }
}

#[test]
fn ugn_strip_annotations() {
    assert_eq!(strip_annotations("e5!{t:42}"), "e5");
    assert_eq!(strip_annotations("b5a4{t:155}"), "b5a4");
    assert_eq!(strip_annotations("a6?!"), "a6");
    assert_eq!(strip_annotations("e2e4"), "e2e4");
    assert_eq!(strip_annotations("!?"), "");
}

#[test]
fn ugn_inline_tags() {
    let mut tags = StringHashMap::new();
    parse_inline_tags("@white \"Magnus Carlsen\" @elo 2850 @rated", &mut tags);
    assert_eq!(tags.get("white").map(|s| s.as_str()), Some("Magnus Carlsen"));
    assert_eq!(tags.get("elo").map(|s| s.as_str()), Some("2850"));
    assert_eq!(tags.get("rated").map(|s| s.as_str()), Some("true"));
    let mut tags = StringHashMap::new();
    parse_inline_tags("@event \"Open quote  ", &mut tags);
    assert_eq!(tags.get("event").map(|s| s.as_str()), Some("Open quote"));
    let mut tags = StringHashMap::new();
    parse_inline_tags("@a @b x y @c", &mut tags);
    assert_eq!(tags.get("a").map(|s| s.as_str()), Some("true"));
    assert_eq!(tags.get("b").map(|s| s.as_str()), Some("x y"));
    assert_eq!(tags.get("c").map(|s| s.as_str()), Some("true"));
}

#[test]
fn ugn_parser_example() {
    let text = "# UGN v0.1\n@game chess\n  @white \"Magnus Carlsen\" @elo 2850\n  @black \"Hikaru Nakamura\" @elo 2780\n  @date 2026-03-30\n  @result 1-0\n  : e2e4 e7e5 g1f3 b8c6 f1b5 a7a6 b5a4 g8f6 1-0\n@game go @size 19\n  : Q16 D4 pass B+2.5\n";
    let mut p = UgnParser::new();
    let games = feed(&mut p, text);
    assert_eq!(games.len(), 2);
    assert_eq!(tag(&games[0], "_type"), Some("chess"));
    assert_eq!(tag(&games[0], "black"), Some("Hikaru Nakamura"));
    assert_eq!(tag(&games[0], "elo"), Some("2780"));
    assert_eq!(tag(&games[0], "date"), Some("2026-03-30"));
    assert_eq!(games[0].moves.len(), 8);
    assert_eq!(games[0].moves[7], "g8f6");
    assert_eq!(games[0].result.as_deref(), Some("1-0"));
    assert_eq!(tag(&games[1], "_type"), Some("go"));
    assert_eq!(tag(&games[1], "size"), Some("19"));
    assert_eq!(games[1].moves, vec!["Q16", "D4", "pass"]);
    assert_eq!(games[1].result.as_deref(), Some("B+2.5"));
}

#[test]
fn ugn_go_game() {
    let text = "@game go @size 19
  @black \"Player1\" @rank 5d
  @white \"Player2\" @rank 3d
  @komi 6.5
  @result B+2.5
  : Q16 D4 R14 Q3 C16 E16 D17 pass B+2.5
";
    let mut p = UgnParser::new();
    let games = feed(&mut p, text);
    assert_eq!(games.len(), 1);
    assert_eq!(tag(&games[0], "_type"), Some("go"));
    assert_eq!(tag(&games[0], "size"), Some("19"));
    assert_eq!(games[0].moves, vec!["Q16", "D4", "R14", "Q3", "C16", "E16", "D17", "pass"]);
    assert_eq!(games[0].result.as_deref(), Some("B+2.5"));
    let mut p = UgnParser::new();
    let games = feed(&mut p, "@game go
: D4 Q16 0
");
    assert_eq!(games[0].moves, vec!["D4", "Q16"]);
    assert_eq!(games[0].result.as_deref(), Some("0"));
}

#[test]
fn ugn_parser_results_and_annotations() {
    let text = "@game chess\n@result 1/2\n: e2e4{t:180} e7e5{t:180}\n: g1f3! b8c6?! 0-1T\n";
    let mut p = UgnParser::new();
    let games = feed(&mut p, text);
    assert_eq!(games.len(), 1);
    assert_eq!(games[0].moves, vec!["e2e4", "e7e5", "g1f3", "b8c6"]);
    assert_eq!(games[0].result.as_deref(), Some("0-1"));
    let mut p = UgnParser::new();
    let games = feed(&mut p, "@game chess\n@result 1/2\n: e2e4\n");
    assert_eq!(games[0].result.as_deref(), Some("1/2-1/2"));
    let mut p = UgnParser::new();
    let games = feed(&mut p, "@game chess\n: e2e4 *\n");
    assert_eq!(games[0].result.as_deref(), Some("*"));
}

#[test]
fn squares_and_uci() {
    let corner = ChessMove::Normal { role: 5, from: 0, capture: None, to: 63, promotion: None };
    assert_eq!(uci_string(&corner), "a1h8");
    let pawn = ChessMove::EnPassant { from: 12, to: 21 };
    assert_eq!(uci_string(&pawn), "e2f3");
    let castle = ChessMove::Castle { king: 4, rook: 7 };
    assert_eq!(uci_string(&castle), "e1g1");
    let long = ChessMove::Castle { king: 60, rook: 56 };
    assert_eq!(uci_string(&long), "e8c8");
    let promo = ChessMove::Normal { role: 1, from: 52, capture: None, to: 60, promotion: Some(2) };
    assert_eq!(uci_string(&promo), "e7e8n");
    let drop = ChessMove::Put { role: 2, to: 20 };
    assert_eq!(uci_string(&drop), "");
}

#[test]
fn tokenize_short_game() {
    let v = Vocab::generate_from_pgn().expect("vocabulary");
    let g = raw(&[], &["e4", "e5", "Nf3", "Nc6"], Some("1-0"));
    let t = ChessTokenizer.tokenize(&g, &v).expect("tokenizes");
    let ids: Vec<u16> = ["e2e4", "e7e5", "g1f3", "b8c6"].iter().map(|a| v.get(a).unwrap()).collect();
    assert_eq!(t.token_ids, vec![1, ids[0], ids[1], ids[2], ids[3], 3, 2]);
    assert_eq!(t.turn_ids, vec![0, 0, 1, 0, 1, 0, 0]);
    assert_eq!(t.category_ids, vec![0, 0, 0, 1, 1, 0, 0]);
    assert_eq!(t.outcome, 0);
}

#[test]
fn tokenize_outcomes() {
    let v = Vocab::generate_from_pgn().expect("vocabulary");
    let moves = ["d4", "d5", "c4", "e6", "Nc3"];
    let t = ChessTokenizer.tokenize(&raw(&[], &moves, Some("0-1")), &v).expect("tokenizes");
    assert_eq!(t.outcome, 2);
    assert_eq!(t.token_ids[6], 5);
    let t = ChessTokenizer.tokenize(&raw(&[], &moves, Some("1/2-1/2")), &v).expect("tokenizes");
    assert_eq!(t.outcome, 1);
    assert_eq!(t.token_ids[6], 4);
    let t = ChessTokenizer.tokenize(&raw(&[], &moves, Some("*")), &v).expect("tokenizes");
    assert_eq!(t.outcome, 255);
    assert_eq!(t.token_ids.len(), 7);
    assert_eq!(*t.token_ids.last().unwrap(), 2);
    let t = ChessTokenizer.tokenize(&raw(&[], &moves, None), &v).expect("tokenizes");
    assert_eq!(t.outcome, 255);
    assert_eq!(t.turn_ids.len(), t.token_ids.len());
    assert_eq!(t.category_ids.len(), t.token_ids.len());
}

#[test]
fn tokenize_castling_and_checks() {
    let v = Vocab::generate_from_pgn().expect("vocabulary");
    let g = raw(&[], &["e4", "e5", "Nf3", "Nc6", "Bc4", "Bc5", "O-O", "Qh4", "Nxh4"], None);
    let t = ChessTokenizer.tokenize(&g, &v).expect("tokenizes");
    assert_eq!(t.token_ids[7], v.get("e1g1").unwrap());
    assert_eq!(t.category_ids[7], 5);
    assert_eq!(t.category_ids[8], 4);
    assert_eq!(t.category_ids[9], 1);
    let g = raw(&[], &["e4", "e5", "Qh5", "Nc6", "Bc4", "Nf6", "Qxf7#"], Some("1-0"));
    let t = ChessTokenizer.tokenize(&g, &v).expect("tokenizes");
    assert_eq!(t.token_ids[7], v.get("h5f7").unwrap());
}

#[test]
fn tokenize_rejects() {
    let v = Vocab::generate_from_pgn().expect("vocabulary");
    assert!(ChessTokenizer.tokenize(&raw(&[], &["e4", "e5", "Nf3"], None), &v).is_none());
    assert!(ChessTokenizer.tokenize(&raw(&[], &["e4", "e5", "Nf3", "Ke7", "Ke3"], None), &v).is_none());
    assert!(ChessTokenizer.tokenize(&raw(&[], &["e4", "e5", "zz", "Nc6"], None), &v).is_none());
    let small = Vocab::from_json(r#"{ "e2e4": 6, "e7e5": 7, "g1f3": 8 }"#).expect("vocabulary");
    assert!(ChessTokenizer.tokenize(&raw(&[], &["e4", "e5", "Nf3", "Nc6"], None), &small).is_none());
}

#[test]
fn tokens_from_plain_moves() {
    let v = Vocab::from_json(r#"{ "e2e4": 6, "e7e5": 7 }"#).expect("vocabulary");
    let moves = vec![
        ChessMove::Normal { role: 1, from: 12, capture: None, to: 28, promotion: None },
        ChessMove::Normal { role: 1, from: 52, capture: None, to: 36, promotion: None },
    ];
    let t = tokens_from_moves(&moves, &Some("1/2-1/2".to_string()), &v).expect("tokens");
    assert_eq!(t.token_ids, vec![1, 6, 7, 4, 2]);
    assert_eq!(t.turn_ids, vec![0, 0, 1, 0, 0]);
    assert_eq!(t.category_ids, vec![0, 0, 0, 0, 0]);
    assert_eq!(t.outcome, 1);
    let knight = vec![ChessMove::Normal { role: 2, from: 6, capture: None, to: 21, promotion: None }];
    assert!(tokens_from_moves(&knight, &None, &v).is_none());
}

#[test]
fn pgn_game_to_ugn() {
    let g = raw(
        &[
            ("Event", "Rated Blitz"),
            ("Date", "2026.03.30"),
            ("White", "A"),
            ("WhiteElo", "1500"),
            ("Black", "B"),
            ("BlackElo", "?"),
            ("TimeControl", "300+0"),
            ("ECO", "C50"),
            ("Termination", "Time Forfeit"),
        ],
        &["e4", "e5", "Nf3", "Nc6", "Bc4", "Bc5", "O-O", "Nf6", "d3", "d6", "c3"],
        Some("1-0"),
    );
    let text = game_to_ugn(&g).expect("converts");
    let expected = "@game chess\n  @event \"Rated Blitz\"\n  @date 2026-03-30\n  @white \"A\" @elo 1500\n  @black \"B\"\n  @time 300+0\n  @eco C50\n  @termination time forfeit\n  @result 1-0\n  : e2e4 e7e5 g1f3 b8c6 f1c4 f8c5 e1g1 g8f6 d2d3 d7d6\n  : c2c3 1-0\n\n";
    assert_eq!(text, expected);
}

#[test]
fn ugn_conversion_rejects() {
    assert!(game_to_ugn(&raw(&[], &["e4", "e5", "Nf3"], None)).is_none());
    assert!(game_to_ugn(&raw(&[], &["e4", "e5", "Nf3", "Nf3"], None)).is_none());
    let t = game_to_ugn(&raw(&[("TimeControl", "-")], &["e4", "e5", "Nf3", "Nc6"], Some("1/2-1/2"))).expect("converts");
    assert_eq!(t, "@game chess\n  @result 1/2\n  : e2e4 e7e5 g1f3 b8c6 1/2\n\n");
}

#[test]
fn ugn_output_parses_back() {
    let g = raw(&[("White", "A")], &["e4", "e5", "Nf3", "Nc6", "Bb5"], Some("0-1"));
    let text = game_to_ugn(&g).expect("converts");
    let mut p = UgnParser::new();
    let games = feed(&mut p, &text);
    assert_eq!(games.len(), 1);
    assert_eq!(games[0].moves, vec!["e2e4", "e7e5", "g1f3", "b8c6", "f1b5"]);
    assert_eq!(games[0].result.as_deref(), Some("0-1"));
    assert_eq!(tag(&games[0], "white"), Some("A"));
}

#[test]
fn ugn_long_game_parses_back() {
    let g = raw(
        &[("Event", "Casual"), ("Termination", "Normal")],
        &["e4", "e5", "Nf3", "Nc6", "Bc4", "Bc5", "O-O", "Nf6", "d3", "d6", "c3", "O-O"],
        None,
    );
    let text = game_to_ugn(&g).expect("converts");
    let mut p = UgnParser::new();
    let games = feed(&mut p, &text);
    assert_eq!(games.len(), 1);
    assert_eq!(
        games[0].moves,
        vec!["e2e4", "e7e5", "g1f3", "b8c6", "f1c4", "f8c5", "e1g1", "g8f6", "d2d3", "d7d6", "c2c3", "e8g8"]
    );
    assert_eq!(games[0].result.as_deref(), Some("*"));
    assert_eq!(tag(&games[0], "event"), Some("Casual"));
}

#[test]
fn ugn_compact_form() {
    let mut p = UgnParser::new();
    let games = feed(&mut p, "chess|w:Player1|b:Player2|elo:1400:1300|e2e4 e7e5 g1f3 b8c6|1-0\n");
    assert_eq!(games.len(), 1);
    assert_eq!(tag(&games[0], "_type"), Some("chess"));
    assert_eq!(tag(&games[0], "w"), Some("Player1"));
    assert_eq!(tag(&games[0], "b"), Some("Player2"));
    assert_eq!(tag(&games[0], "elo"), Some("1400:1300"));
    assert_eq!(games[0].moves, vec!["e2e4", "e7e5", "g1f3", "b8c6"]);
    assert_eq!(games[0].result.as_deref(), Some("1-0"));
}

#[test]
fn ugn_compact_and_block_forms_mix() {
    let text = "@game chess\n: e2e4 e7e5 1/2\nchess||d2d4 d7d5|0-1\nchess|rated|c2c4|*\n@game go\n: D4 0\n";
    let mut p = UgnParser::new();
    let games = feed(&mut p, text);
    assert_eq!(games.len(), 4);
    assert_eq!(games[0].moves, vec!["e2e4", "e7e5"]);
    assert_eq!(games[0].result.as_deref(), Some("1/2-1/2"));
    assert_eq!(games[1].moves, vec!["d2d4", "d7d5"]);
    assert_eq!(games[1].result.as_deref(), Some("0-1"));
    assert_eq!(tag(&games[2], "rated"), Some("true"));
    assert_eq!(games[2].result.as_deref(), Some("*"));
    assert_eq!(tag(&games[3], "_type"), Some("go"));
    let mut p = UgnParser::new();
    assert!(feed(&mut p, "chess|1-0\nnot a game\n").is_empty());
}

#[test]
fn ugn_inline_tags_keep_earlier_tags() {
    let mut tags = StringHashMap::new();
    tags.insert("white".to_string(), "A".to_string());
    parse_inline_tags("no tags here", &mut tags);
    assert_eq!(tags.len(), 1);
    parse_inline_tags("text @elo 1500", &mut tags);
    assert_eq!(tags.get("white").map(|s| s.as_str()), Some("A"));
    assert_eq!(tags.get("elo").map(|s| s.as_str()), Some("1500"));
    assert_eq!(tags.len(), 2);
}

#[test]
fn ugn_one_game_per_block() {
    let text = "@game chess\n: e2e4 1-0\n\n# note\n@game chess\nchess||d2d4|0-1\n@game go\n";
    let mut p = UgnParser::new();
    let games = feed(&mut p, text);
    assert_eq!(games.len(), 4);
    assert!(games[1].moves.is_empty());
    assert_eq!(tag(&games[3], "_type"), Some("go"));
}

#[test]
fn ugn_converted_games_parse_back() {
    let a = raw(&[("White", "A")], &["e4", "e5", "Nf3", "Nc6"], Some("1-0"));
    let b = raw(&[], &["d4", "d5", "c4", "e6", "Nc3"], Some("1/2-1/2"));
    let c = raw(&[], &["c4", "e5", "g3", "Nf6"], None);
    let mut text = String::new();
    for g in [&a, &b, &c] {
        text.push_str(&game_to_ugn(g).expect("converts"));
    }
    let mut p = UgnParser::new();
    let games = feed(&mut p, &text);
    assert_eq!(games.len(), 3);
    assert_eq!(games[0].moves, vec!["e2e4", "e7e5", "g1f3", "b8c6"]);
    assert_eq!(games[0].result.as_deref(), Some("1-0"));
    assert_eq!(games[1].moves, vec!["d2d4", "d7d5", "c2c4", "e7e6", "b1c3"]);
    assert_eq!(games[1].result.as_deref(), Some("1/2-1/2"));
    assert_eq!(games[2].result.as_deref(), Some("*"));
    for g in &games {
        assert_eq!(tag(g, "_type"), Some("chess"));
    }
}

#[test]
fn ugn_zero_is_a_move_outside_go() {
    let text = "@game tictactoe\n  @x \"Player1\"\n  @o \"Player2\"\n  @result 1-0\n  : 4 0 1 3 7 1-0\n";
    let mut p = UgnParser::new();
    let games = feed(&mut p, text);
    assert_eq!(games.len(), 1);
    assert_eq!(games[0].moves, vec!["4", "0", "1", "3", "7"]);
    assert_eq!(games[0].result.as_deref(), Some("1-0"));
    let mut p = UgnParser::new();
    let games = feed(&mut p, "go||D4 Q16 0|\n");
    assert_eq!(games[0].moves, vec!["D4", "Q16"]);
    assert_eq!(games[0].result.as_deref(), Some("0"));
}
