use lazychess::analyzer::{
    analyses_ply, annotated_pgn, classification_annotation, count_kinds, engine_eval, final_eval,
    find_uci_move, meets_threshold, normalize_eval_to_white, ply_move_number, prepare_move, read_top_lines,
    score_to_eval, AnalyzerConfig, AnnotatedMove, Side,
};
use lazychess::board::Board;
use lazychess::classifications::{
    classify_in_order, any_move_is_checkmate, capture_square, get_attackers, get_direct_attackers, get_unsafe_pieces, is_piece_safe,
    try_apply_move, with_side_to_move, BoardPiece, great_second_eval, is_critical_candidate, mate_classify, ClassificationKind, Evaluation, MoveContext,
};
use lazychess::opening::BUILTIN_OPENINGS_JSON;
use lazychess::session::{
    handshake_line, is_readyok, multipv_command, position_command, read_search_line, setoption_command,
    top_moves_config, EngineSession, SearchLine,
};
use lazychess::uci::{
    main_line_score, parse_bestmove_line, parse_info_line, parse_option_line, top_moves_from_infos,
    AnalysisInfo, EngineInfo, Score, SearchConfig, UciError,
};
use lazychess::{
    apply_move, board_to_fen, generate_legal_moves, is_in_check, move_to_san, parse_fen, parse_pgn,
    parse_square, square_name, Color, DrawReason, Game, GameStatus, Move, MoveFlag, OpeningBook, Piece,
    PieceType,
};

fn info(line: &str) -> AnalysisInfo {
    parse_info_line(line).expect("an info line")
}

fn find_move(board: &Board, uci: &str) -> Move {
    let legal = generate_legal_moves(board);
    let i = find_uci_move(&legal, uci).expect("a legal move");
    legal[i]
}

#[test]
fn law_undo_restores_every_position() {
    let mut game = Game::new();
    let moves = ["e2e4", "e7e5", "g1f3", "b8c6", "f1b5", "a7a6"];
    let mut fens = vec![game.get_fen()];
    for mv in moves.iter() {
        game.do_move(mv).unwrap();
        fens.push(game.get_fen());
    }
    for k in (0..moves.len()).rev() {
        game.undo_move().unwrap();
        assert_eq!(game.get_fen(), fens[k]);
        assert_eq!(game.history().len(), k);
    }
    assert_eq!(game.undo_move().unwrap_err().message, "No moves to undo");
}

#[test]
fn law_fen_round_trip_on_several_positions() {
    let fens = [
        "rnbqkbnr/pppppppp/8/8/8/8/PPPPPPPP/RNBQKBNR w KQkq - 0 1",
        "rnbqkbnr/pppppppp/8/8/4P3/8/PPPP1PPP/RNBQKBNR b KQkq e3 0 1",
        "8/8/8/4k3/8/8/8/4K3 w - - 57 90",
        "r3k2r/8/8/8/8/8/8/R3K2R b Kq - 3 12",
        "4k3/P7/8/8/8/8/8/4K3 w - - 0 1",
    ];
    for f in fens.iter() {
        let b = parse_fen(f).unwrap();
        assert_eq!(board_to_fen(&b), *f);
        let again = parse_fen(&board_to_fen(&b)).unwrap();
        assert_eq!(board_to_fen(&again), *f);
    }
}

#[test]
fn fen_optional_clocks_default() {
    let b = parse_fen("8/8/8/4k3/8/8/8/4K3 w - -").unwrap();
    assert_eq!(board_to_fen(&b), "8/8/8/4k3/8/8/8/4K3 w - - 0 1");
}

#[test]
fn law_square_name_round_trip_all_squares() {
    for sq in 0u8..64 {
        let name = square_name(sq);
        assert_eq!(parse_square(&name), Some(sq));
    }
    assert_eq!(square_name(0), "a1");
    assert_eq!(square_name(63), "h8");
    assert_eq!(parse_square("i1"), None);
    assert_eq!(parse_square("a9"), None);
}

#[test]
fn law_legal_moves_never_leave_king_in_check() {
    let fens = [
        "rnbqkbnr/pppppppp/8/8/8/8/PPPPPPPP/RNBQKBNR w KQkq - 0 1",
        "r3k2r/p1ppqpb1/bn2pnp1/3PN3/1p2P3/2N2Q1p/PPPBBPPP/R3K2R w KQkq - 0 1",
        "4k3/8/8/8/8/8/4r3/4K3 w - - 0 1",
        "8/8/8/3k4/8/8/3Q4/3K4 b - - 0 1",
    ];
    for f in fens.iter() {
        let b = parse_fen(f).unwrap();
        let legal = generate_legal_moves(&b);
        assert!(!legal.is_empty());
        for mv in legal.iter() {
            let after = apply_move(&b, mv);
            assert!(!is_in_check(&after, b.side_to_move));
        }
    }
}

#[test]
fn law_rejected_move_changes_nothing() {
    let mut game = Game::new();
    game.do_move("d2d4").unwrap();
    let before = game.get_fen();
    let err = game.do_move("e2e5").unwrap_err();
    assert_eq!(err.message, "Illegal or unrecognised move: 'e2e5'");
    assert_eq!(game.get_fen(), before);
    assert_eq!(game.history().len(), 1);
}

#[test]
fn law_is_move_legal_agrees_with_do_move() {
    let game = Game::new();
    for mv in ["e2e4", "Nf3", "e2e5", "Ke2", "a2a3", "O-O", "zz"].iter() {
        let mut copy = Game::new();
        assert_eq!(game.is_move_legal(mv), copy.do_move(mv).is_ok());
    }
}

#[test]
fn law_side_alternates_and_history_grows() {
    let mut game = Game::new();
    assert_eq!(game.side_to_move(), Color::White);
    game.do_move("e4").unwrap();
    assert_eq!(game.side_to_move(), Color::Black);
    assert_eq!(game.history().len(), 1);
    game.do_move("c5").unwrap();
    assert_eq!(game.side_to_move(), Color::White);
    assert_eq!(game.history().len(), 2);
    assert_eq!(game.history()[1].2, "c5");
}

#[test]
fn law_set_piece_reads_back() {
    let mut b = Board::starting_position();
    let knight = Piece::new(PieceType::Knight, Color::Black);
    b.set_piece(28, Some(knight));
    assert_eq!(b.piece_at(28), Some(knight));
    b.set_piece(0, None);
    assert_eq!(b.piece_at(0), None);
    assert_eq!(b.take_piece(28), Some(knight));
    assert_eq!(b.piece_at(28), None);
}

#[test]
fn fen_error_messages() {
    let cases = [
        ("8/8/8/8 w", "FEN must have at least 4 fields"),
        ("8/8/8/8/8/8/8/8 x - - 0 1", "Invalid side to move: 'x'"),
        ("8/8/8/8/8/8/8/8 w KQkx - 0 1", "Invalid castling char: 'x'"),
        ("8/8/8/8/8/8/8/8 w - z9 0 1", "Invalid en passant square: 'z9'"),
        ("rnbqkbnr/ppppXppp/8/8/8/8/PPPPPPPP/RNBQKBNR w KQkq - 0 1", "Unknown FEN char: 'X'"),
        ("8p/8/8/8/8/8/8/8 w - - 0 1", "FEN piece placement out of bounds"),
        ("8/8/8/8/8/8/8/K6k w - - x 1", "Invalid halfmove clock: 'x'"),
        ("8/8/8/8/8/8/8/K6k w - - 0 y", "Invalid fullmove number: 'y'"),
    ];
    for (fen, msg) in cases.iter() {
        assert_eq!(parse_fen(fen).unwrap_err().message, *msg);
    }
}

#[test]
fn game_status_kinds() {
    let mate = Game::from_fen("rnb1kbnr/pppp1ppp/8/4p3/6Pq/5P2/PPPPP2P/RNBQKBNR w KQkq - 1 3").unwrap();
    assert_eq!(mate.get_game_status(), GameStatus::Checkmate);
    let stale = Game::from_fen("7k/5Q2/6K1/8/8/8/8/8 b - - 0 1").unwrap();
    assert_eq!(stale.get_game_status(), GameStatus::Stalemate);
    let fifty = Game::from_fen("4k3/8/8/8/8/8/4R3/4K3 w - - 100 80").unwrap();
    assert_eq!(fifty.get_game_status(), GameStatus::Draw(DrawReason::FiftyMoveRule));
    let bare = Game::from_fen("4k3/8/8/8/8/8/8/4K3 w - - 0 1").unwrap();
    assert_eq!(bare.get_game_status(), GameStatus::Draw(DrawReason::InsufficientMaterial));
    let check = Game::from_fen("4k3/8/8/8/8/8/4r3/4K3 w - - 0 1").unwrap();
    assert_eq!(check.get_game_status(), GameStatus::Check);
    assert!(check.is_check());
}

#[test]
fn threefold_by_knight_shuffle() {
    let mut game = Game::new();
    for mv in ["Nf3", "Nf6", "Ng1", "Ng8", "Nf3", "Nf6", "Ng1", "Ng8"].iter() {
        game.do_move(mv).unwrap();
    }
    assert_eq!(game.get_game_status(), GameStatus::Draw(DrawReason::ThreefoldRepetition));
    assert!(game.is_draw());
}

#[test]
fn square_color_error_message() {
    assert_eq!(Game::square_color("d4").unwrap(), "dark");
    assert_eq!(Game::square_color("e4").unwrap(), "light");
    assert_eq!(Game::square_color("k4").unwrap_err().message, "Invalid square: 'k4'");
}

#[test]
fn san_text_of_special_moves() {
    let b = parse_fen("r3k2r/8/8/8/8/8/8/R3K2R w KQkq - 0 1").unwrap();
    assert_eq!(move_to_san(&b, &find_move(&b, "e1g1")), "O-O");
    assert_eq!(move_to_san(&b, &find_move(&b, "e1c1")), "O-O-O");
    let p = parse_fen("4k3/P7/8/8/8/8/8/4K3 w - - 0 1").unwrap();
    assert_eq!(move_to_san(&p, &find_move(&p, "a7a8q")), "a8=Q+");
    assert_eq!(move_to_san(&p, &find_move(&p, "a7a8n")), "a8=N");
    let d = parse_fen("4k3/8/8/8/8/8/8/N3K1N1 w - - 0 1").unwrap();
    assert_eq!(move_to_san(&d, &find_move(&d, "a1b3")), "Nb3");
    let r = parse_fen("4k3/8/8/8/8/8/4K3/R6R w - - 0 1").unwrap();
    assert_eq!(move_to_san(&r, &find_move(&r, "a1d1")), "Rad1");
    let c = parse_fen("4k3/8/8/3p4/4P3/8/8/4K3 w - - 0 1").unwrap();
    assert_eq!(move_to_san(&c, &find_move(&c, "e4d5")), "exd5");
    let m = parse_fen("rnbqkbnr/pppp1ppp/8/4p3/6P1/5P2/PPPPP2P/RNBQKBNR b KQkq - 0 2").unwrap();
    assert_eq!(move_to_san(&m, &find_move(&m, "d8h4")), "Qh4#");
}

#[test]
fn pgn_text_of_a_short_game() {
    let mut game = Game::new();
    for mv in ["e4", "e5", "Nf3"].iter() {
        game.do_move(mv).unwrap();
    }
    let pgn = game.get_pgn_with_tags(&[("Event", "Test")]);
    assert!(pgn.contains("[Event \"Test\"]"));
    assert!(pgn.contains("1. e4 e5 2. Nf3"));
}

#[test]
fn parse_pgn_reads_tags_and_moves() {
    let (tags, moves) = parse_pgn("[White \"A\"]\n[Black \"B\"]\n\n1. e4 {best} e5 2. Nf3 Nc6 1-0").unwrap();
    assert_eq!(tags, vec![("White".to_string(), "A".to_string()), ("Black".to_string(), "B".to_string())]);
    assert_eq!(moves, vec!["e4", "e5", "Nf3", "Nc6"]);
}

#[test]
fn opening_book_from_json_and_lookup() {
    let book = OpeningBook::from_json(BUILTIN_OPENINGS_JSON).unwrap();
    assert_eq!(book.lookup("rnbqkbnr/pppppppp/8/8/4P3/8/PPPP1PPP/RNBQKBNR"), Some("King's Pawn Game"));
    assert_eq!(book.lookup("8/8/8/8/8/8/8/8"), None);
    let own = OpeningBook::from_json("{\"8/8/8/8/8/8/8/8\": \"Empty\"}").unwrap();
    assert_eq!(own.lookup("8/8/8/8/8/8/8/8"), Some("Empty"));
    assert!(OpeningBook::from_json("not json").is_err());
    assert!(OpeningBook::from_json("[1, 2]").is_err());
    assert_eq!(OpeningBook::empty().lookup("8/8/8/8/8/8/8/8"), None);
}

#[test]
fn load_opening_book_errors_carry_prefix() {
    let mut game = Game::new();
    let err = game.load_opening_book("{").unwrap_err();
    assert!(err.message.starts_with("Failed to load opening book: "));
    game.load_opening_book("{\"rnbqkbnr/pppppppp/8/8/3P4/8/PPP1PPPP/RNBQKBNR\": \"Queen's Pawn Game\"}").unwrap();
    game.do_move("d4").unwrap();
    assert_eq!(game.opening_name(), Some("Queen's Pawn Game"));
}

#[test]
fn score_and_error_texts() {
    assert_eq!(Score::Centipawns(35).to_string(), "+35 cp");
    assert_eq!(Score::Centipawns(-20).to_string(), "-20 cp");
    assert_eq!(Score::Centipawns(0).to_string(), "+0 cp");
    assert_eq!(Score::Mate(3).to_string(), "Mate in 3");
    assert_eq!(Score::Mate(-2).to_string(), "Being mated in 2");
    assert_eq!(UciError::Timeout.to_string(), "Engine did not respond in time");
    assert_eq!(UciError::ProcessDied.to_string(), "Engine process terminated unexpectedly");
    assert_eq!(UciError::ParseError("x".to_string()).to_string(), "Parse error: x");
    assert_eq!(UciError::EngineError("boom".to_string()).to_string(), "Engine error: boom");
}

#[test]
fn go_command_texts() {
    assert_eq!(SearchConfig::depth(12).to_go_command(), "go depth 12");
    assert_eq!(SearchConfig::movetime(1500).to_go_command(), "go movetime 1500");
    assert_eq!(SearchConfig::infinite().to_go_command(), "go infinite");
    let c = SearchConfig::builder()
        .wtime(60000)
        .btime(50000)
        .winc(1000)
        .binc(900)
        .searchmoves(vec!["e2e4".to_string(), "d2d4".to_string()])
        .ponder_move("e7e5")
        .build();
    assert_eq!(c.to_go_command(), "go ponder wtime 60000 btime 50000 winc 1000 binc 900 searchmoves e2e4 d2d4");
}

#[test]
fn info_line_fields() {
    let a = info("info depth 20 seldepth 28 multipv 2 score cp -31 lowerbound nodes 123 nps 456 time 78 hashfull 9 pv e2e4 e7e5");
    assert_eq!(a.depth, Some(20));
    assert_eq!(a.seldepth, Some(28));
    assert_eq!(a.multipv, Some(2));
    assert_eq!(a.score, Some(Score::Centipawns(-31)));
    assert_eq!(a.nodes, Some(123));
    assert_eq!(a.nps, Some(456));
    assert_eq!(a.time_ms, Some(78));
    assert_eq!(a.hashfull, Some(9));
    assert_eq!(a.pv, vec!["e2e4", "e7e5"]);
    assert_eq!(a.to_string(), "[pv 2] depth 20 score -31 cp pv e2e4 e7e5");
    let m = info("info string NNUE evaluation enabled");
    assert_eq!(m.message.as_deref(), Some("NNUE evaluation enabled"));
    assert_eq!(m.to_string(), "[engine] NNUE evaluation enabled");
    assert!(parse_info_line("bestmove e2e4").is_none());
}

#[test]
fn option_line_fields() {
    let o = parse_option_line("option name Skill Level type spin default 20 min 0 max 20").unwrap();
    assert_eq!(o.name, "Skill Level");
    assert_eq!(o.kind, "spin");
    assert_eq!(o.default.as_deref(), Some("20"));
    assert_eq!(o.min.as_deref(), Some("0"));
    assert_eq!(o.max.as_deref(), Some("20"));
    let v = parse_option_line("option name Style type combo default Normal var Solid var Normal").unwrap();
    assert_eq!(v.vars, vec!["Solid", "Normal"]);
    assert!(parse_option_line("option type spin").is_none());
    assert!(parse_option_line("id name X").is_none());
}

#[test]
fn bestmove_lines() {
    let r = parse_bestmove_line("bestmove e2e4 ponder e7e5").unwrap().unwrap();
    assert_eq!(r.best_move, "e2e4");
    assert_eq!(r.ponder_move.as_deref(), Some("e7e5"));
    let q = parse_bestmove_line("  bestmove g1f3  ").unwrap().unwrap();
    assert_eq!(q.ponder_move, None);
    match parse_bestmove_line("bestmove (none)").unwrap() {
        Err(UciError::EngineError(m)) => assert_eq!(m, "engine returned no bestmove"),
        _ => panic!("expected an engine error"),
    }
    assert!(parse_bestmove_line("info depth 1").is_none());
}

#[test]
fn top_moves_keep_deepest_record_per_line() {
    let infos = vec![
        info("info depth 10 multipv 1 score cp 20 pv e2e4 e7e5"),
        info("info depth 10 multipv 2 score cp 10 pv d2d4"),
        info("info depth 12 multipv 2 score cp 15 pv c2c4"),
        info("info depth 12 multipv 1 score cp 25 pv g1f3"),
        info("info depth 11 multipv 1 score cp 99 pv a2a3"),
        info("info depth 12 multipv 3 score cp 5"),
    ];
    let top = top_moves_from_infos(&infos);
    assert_eq!(
        top,
        vec![
            ("g1f3".to_string(), Some(Score::Centipawns(25))),
            ("c2c4".to_string(), Some(Score::Centipawns(15))),
        ]
    );
    assert_eq!(main_line_score(&infos), Some(Score::Centipawns(25)));
    assert_eq!(main_line_score(&[]), None);
}

#[test]
fn session_commands_and_state() {
    assert_eq!(setoption_command("Hash", "256"), "setoption name Hash value 256");
    assert_eq!(position_command(None), "position startpos");
    assert_eq!(position_command(Some("8/8/8/8/8/8/8/8 w - - 0 1")), "position fen 8/8/8/8/8/8/8/8 w - - 0 1");
    let cfg = SearchConfig::builder().multipv(3).build();
    assert_eq!(multipv_command(&cfg, true), Some(("setoption name MultiPV value 3".to_string(), true)));
    let plain = SearchConfig::depth(5);
    assert_eq!(multipv_command(&plain, true), Some(("setoption name MultiPV value 1".to_string(), false)));
    assert_eq!(multipv_command(&plain, false), None);
    assert_eq!(top_moves_config(&plain, 0).multipv, Some(1));
    assert_eq!(top_moves_config(&plain, 900).multipv, Some(500));
    assert_eq!(top_moves_config(&plain, 4).depth, Some(5));

    let mut s = EngineSession::new();
    assert_eq!(s.timeout_ms(), 10_000);
    s.set_timeout(250);
    assert_eq!(s.search_timeout(&plain), 250);
    assert_eq!(s.search_timeout(&SearchConfig::builder().read_timeout_ms(9).build()), 9);
    assert_eq!(s.current_fen(), None);
    let (pos, go) = s.ponder_commands("e7e5", &plain).unwrap();
    assert_eq!(pos, "position startpos moves e7e5");
    assert_eq!(go, "go ponder depth 5");
    s.position_sent(Some("4k3/8/8/8/8/8/8/4K3 w - - 0 1"));
    assert_eq!(s.current_fen(), Some("4k3/8/8/8/8/8/8/4K3 w - - 0 1"));
    let (pos2, _) = s.ponder_commands("e1e2", &plain).unwrap();
    assert_eq!(pos2, "position fen 4k3/8/8/8/8/8/8/4K3 w - - 0 1 moves e1e2");
    assert!(s.ponder_miss_commands().is_empty());
    match s.ponderhit_commands() {
        Err(UciError::EngineError(m)) => assert_eq!(m, "not currently pondering"),
        _ => panic!("expected an error"),
    }
    s.ponder_started();
    assert!(s.is_pondering());
    match s.ponder_commands("e1e2", &plain) {
        Err(UciError::EngineError(m)) => assert_eq!(m, "already pondering; call ponderhit() or ponder_miss() first"),
        _ => panic!("expected an error"),
    }
    assert_eq!(s.ponderhit_commands().unwrap(), vec!["stop", "ponderhit"]);
    assert_eq!(s.ponder_miss_commands(), vec!["stop"]);
    s.ponder_ended();
    assert!(!s.is_pondering());
    s.position_sent(None);
    assert_eq!(s.current_fen(), None);
}

#[test]
fn handshake_and_search_lines() {
    let mut id = EngineInfo::default();
    assert!(!handshake_line(&mut id, "id name Stockfish 16"));
    assert!(!handshake_line(&mut id, "id author The Authors"));
    assert!(!handshake_line(&mut id, "option name Hash type spin default 16 min 1 max 33554432"));
    assert!(!handshake_line(&mut id, "something else"));
    assert!(handshake_line(&mut id, "  uciok "));
    assert_eq!(id.name.as_deref(), Some("Stockfish 16"));
    assert_eq!(id.author.as_deref(), Some("The Authors"));
    assert_eq!(id.options.len(), 1);
    assert_eq!(id.options[0].name, "Hash");
    assert!(is_readyok("readyok\r"));
    assert!(!is_readyok("ready"));
    match read_search_line("bestmove e2e4 ponder e7e5") {
        SearchLine::BestMove(Ok(p)) => assert_eq!(p.best_move, "e2e4"),
        _ => panic!("expected a best move"),
    }
    match read_search_line(" info depth 3 score mate 2 pv h5f7") {
        SearchLine::Info(a) => assert_eq!(a.score, Some(Score::Mate(2))),
        _ => panic!("expected an info record"),
    }
    assert!(matches!(read_search_line("infostring"), SearchLine::Other));
    assert!(matches!(read_search_line("readyok"), SearchLine::Other));
}

#[test]
fn analyzer_small_decisions() {
    assert_eq!(classification_annotation(&ClassificationKind::Brilliant), "!!");
    assert_eq!(classification_annotation(&ClassificationKind::Blunder), "??");
    assert_eq!(classification_annotation(&ClassificationKind::Best), "");
    assert!(analyses_ply(0, Some(Side::White)));
    assert!(!analyses_ply(1, Some(Side::White)));
    assert!(analyses_ply(1, Some(Side::Black)));
    assert!(analyses_ply(7, None));
    assert_eq!(ply_move_number(0), 1);
    assert_eq!(ply_move_number(5), 3);
    assert!(meets_threshold(ClassificationKind::Blunder, Some(ClassificationKind::Mistake)));
    assert!(!meets_threshold(ClassificationKind::Best, Some(ClassificationKind::Mistake)));
    assert!(meets_threshold(ClassificationKind::Best, None));
    let c = AnalyzerConfig::depth(18).with_timeout(5);
    assert_eq!(c.search.depth, Some(18));
    assert_eq!(c.read_timeout_ms, Some(5));
}

#[test]
fn evaluations_turn_to_white() {
    assert_eq!(normalize_eval_to_white(Evaluation::Centipawn(40), Color::Black), Evaluation::Centipawn(-40));
    assert_eq!(normalize_eval_to_white(Evaluation::Mate(3), Color::White), Evaluation::Mate(3));
    assert_eq!(score_to_eval(&Score::Mate(-4)), Evaluation::Mate(-4));
    assert_eq!(engine_eval(None, Color::Black), Evaluation::Centipawn(0));
    assert_eq!(engine_eval(Some(Score::Centipawns(12)), Color::Black), Evaluation::Centipawn(-12));
    let top = vec![
        ("e2e4".to_string(), Some(Score::Centipawns(30))),
        ("d2d4".to_string(), Some(Score::Mate(5))),
    ];
    let (best, before, second) = read_top_lines(&top, "a2a3", Color::Black);
    assert_eq!(best, "e2e4");
    assert_eq!(before, Evaluation::Centipawn(-30));
    assert_eq!(second, Some(Evaluation::Mate(-5)));
    let (best0, before0, second0) = read_top_lines(&[], "a2a3", Color::White);
    assert_eq!(best0, "a2a3");
    assert_eq!(before0, Evaluation::Centipawn(0));
    assert_eq!(second0, None);
}

#[test]
fn counts_and_annotated_pgn() {
    let kinds = [
        ClassificationKind::Best,
        ClassificationKind::Blunder,
        ClassificationKind::Best,
        ClassificationKind::Book,
    ];
    let c = count_kinds(&kinds);
    assert_eq!(c.best, 2);
    assert_eq!(c.blunder, 1);
    assert_eq!(c.book, 1);
    assert_eq!(c.great, 0);
    let mv = |n: u32, color: Color, san: &str, kind: ClassificationKind| AnnotatedMove {
        move_number: n,
        color,
        san: san.to_string(),
        kind,
    };
    let moves = vec![
        mv(1, Color::White, "e4", ClassificationKind::Book),
        mv(1, Color::Black, "e5", ClassificationKind::Book),
        mv(2, Color::White, "Qh5", ClassificationKind::Inaccuracy),
        mv(3, Color::Black, "Nf6", ClassificationKind::Blunder),
    ];
    assert_eq!(annotated_pgn(&moves), "1. e4 e5 2. Qh5?! 3... Nf6??");
    assert_eq!(annotated_pgn(&[mv(4, Color::Black, "Kf7", ClassificationKind::Brilliant)]), "4... Kf7!!");
}

#[test]
fn prepare_move_gathers_the_context() {
    let book = OpeningBook::from_json(BUILTIN_OPENINGS_JSON).unwrap();
    let start = Board::starting_position();
    let p = prepare_move(&start, "e2e4", &book).unwrap();
    assert_eq!(p.san, "e4");
    assert!(!p.is_forced);
    assert!(!p.in_check_before);
    assert!(p.is_book);
    assert_eq!(p.legal.len(), 20);
    assert_eq!(board_to_fen(&p.board_after), "rnbqkbnr/pppppppp/8/8/4P3/8/PPPP1PPP/RNBQKBNR b KQkq e3 0 1");
    let q = prepare_move(&start, "a2a3", &book).unwrap();
    assert!(!q.is_book);
    assert_eq!(prepare_move(&start, "e2e5", &book).unwrap_err().message, "Illegal move: 'e2e5'");
    assert_eq!(prepare_move(&start, "E2E4", &book).unwrap_err().message, "Illegal move: 'E2E4'");
    let forced = parse_fen("7k/8/8/8/8/8/6q1/7K w - - 0 1").unwrap();
    let f = prepare_move(&forced, "h1g2", &book).unwrap();
    assert!(f.is_forced);
    assert!(f.in_check_before);
    assert_eq!(f.played_move.flag, MoveFlag::Normal);
}

#[test]
fn final_eval_of_ended_games() {
    let mated = parse_fen("rnb1kbnr/pppp1ppp/8/4p3/6Pq/5P2/PPPPP2P/RNBQKBNR w KQkq - 1 3").unwrap();
    assert_eq!(final_eval(&mated), Some(Evaluation::Mate(0)));
    let stale = parse_fen("7k/5Q2/6K1/8/8/8/8/8 b - - 0 1").unwrap();
    assert_eq!(final_eval(&stale), Some(Evaluation::Centipawn(0)));
    assert_eq!(final_eval(&Board::starting_position()), None);
}

fn ctx(before: Evaluation, after: Evaluation, second: Option<Evaluation>, color: Color) -> MoveContext {
    let mv = Move::new(12, 28);
    MoveContext {
        played_move: mv,
        best_move: mv,
        eval_before: before,
        eval_after: after,
        second_best_eval: second,
        is_book: false,
        is_forced: false,
        in_check_before: false,
        color,
    }
}

#[test]
fn mate_scores_classify_moves() {
    let w = Color::White;
    assert_eq!(mate_classify(&ctx(Evaluation::Mate(3), Evaluation::Mate(-5), None, w)), Some(ClassificationKind::Mistake));
    assert_eq!(mate_classify(&ctx(Evaluation::Mate(3), Evaluation::Mate(-2), None, w)), Some(ClassificationKind::Blunder));
    assert_eq!(mate_classify(&ctx(Evaluation::Mate(3), Evaluation::Mate(2), None, w)), Some(ClassificationKind::Best));
    assert_eq!(mate_classify(&ctx(Evaluation::Mate(3), Evaluation::Mate(4), None, w)), Some(ClassificationKind::Excellent));
    assert_eq!(mate_classify(&ctx(Evaluation::Mate(3), Evaluation::Mate(8), None, w)), Some(ClassificationKind::Okay));
    assert_eq!(mate_classify(&ctx(Evaluation::Mate(3), Evaluation::Mate(12), None, w)), Some(ClassificationKind::Inaccuracy));
    assert_eq!(mate_classify(&ctx(Evaluation::Mate(3), Evaluation::Centipawn(500), None, w)), Some(ClassificationKind::Okay));
    assert_eq!(mate_classify(&ctx(Evaluation::Mate(3), Evaluation::Centipawn(-10), None, w)), Some(ClassificationKind::Blunder));
    assert_eq!(mate_classify(&ctx(Evaluation::Centipawn(50), Evaluation::Mate(4), None, w)), Some(ClassificationKind::Best));
    assert_eq!(mate_classify(&ctx(Evaluation::Centipawn(50), Evaluation::Mate(-4), None, w)), Some(ClassificationKind::Mistake));
    assert_eq!(mate_classify(&ctx(Evaluation::Centipawn(50), Evaluation::Centipawn(40), None, w)), None);
    // Black's point of view: a white mate is a black loss.
    assert_eq!(
        mate_classify(&ctx(Evaluation::Centipawn(-50), Evaluation::Mate(2), None, Color::Black)),
        Some(ClassificationKind::Blunder)
    );
}

#[test]
fn great_needs_a_critical_move_and_a_second_line() {
    let start = Board::starting_position();
    let level = ctx(Evaluation::Centipawn(20), Evaluation::Centipawn(25), Some(Evaluation::Centipawn(-90)), Color::White);
    assert!(is_critical_candidate(&level));
    assert_eq!(great_second_eval(&start, &level), Some(Evaluation::Centipawn(-90)));
    let no_second = ctx(Evaluation::Centipawn(20), Evaluation::Centipawn(25), None, Color::White);
    assert_eq!(great_second_eval(&start, &no_second), None);
    let won = ctx(Evaluation::Centipawn(900), Evaluation::Centipawn(900), Some(Evaluation::Centipawn(800)), Color::White);
    assert!(!is_critical_candidate(&won));
    assert_eq!(great_second_eval(&start, &won), None);
}

#[test]
fn readme_quick_start() {
    let mut game = Game::new();
    for mv in ["e2e4", "e7e5", "g1f3", "b8c6", "f1b5"].iter() {
        game.do_move(mv).expect("move should be legal");
    }
    let expected_board = "   +------------------------+\n \
8 | r  .  b  q  k  b  n  r |\n \
7 | p  p  p  p  .  p  p  p |\n \
6 | .  .  n  .  .  .  .  . |\n \
5 | .  B  .  .  p  .  .  . |\n \
4 | .  .  .  .  P  .  .  . |\n \
3 | .  .  .  .  .  N  .  . |\n \
2 | P  P  P  P  .  P  P  P |\n \
1 | R  N  B  Q  K  .  .  R |\n   \
+------------------------+\n     \
a  b  c  d  e  f  g  h\n";
    assert_eq!(game.display_board(), expected_board);
    assert_eq!(game.opening_name(), Some("Ruy Lopez"));
    assert_eq!(game.get_game_status_str(), "ongoing");
    assert_eq!(game.get_fen(), "r1bqkbnr/pppp1ppp/2n5/1B2p3/4P3/5N2/PPPP1PPP/RNBQK2R b KQkq - 3 3");
    assert_eq!(game.get_pgn(), "1. e4 e5 2. Nf3 Nc6 3. Bb5 *");
}

#[test]
fn law_kind_counts_add_up() {
    let kinds = [
        ClassificationKind::Risky,
        ClassificationKind::Miss,
        ClassificationKind::Miss,
        ClassificationKind::Great,
        ClassificationKind::Okay,
    ];
    let c = count_kinds(&kinds);
    let total = c.brilliant + c.great + c.best + c.excellent + c.good + c.okay + c.inaccuracy + c.miss
        + c.mistake + c.blunder + c.forced + c.book + c.risky;
    assert_eq!(total as usize, kinds.len());
    assert_eq!(c.miss, 2);
}

#[test]
fn color_and_move_texts() {
    assert_eq!(Color::White.to_string(), "w");
    assert_eq!(Color::Black.to_string(), "b");
    assert_eq!(Move::new(12, 28).to_string(), "e2e4");
    assert_eq!(Move::with_flag(52, 60, MoveFlag::Promotion(PieceType::Queen)).to_string(), "e7e8q");
}

#[test]
fn law_pgn_reads_back_tags_and_moves() {
    let mut game = Game::new();
    for mv in ["e4", "e5", "Qh5", "Nc6", "Bc4", "Nf6", "Qxf7#"].iter() {
        game.do_move(mv).unwrap();
    }
    let text = game.get_pgn_with_tags(&[("White", "Alice")]);
    let (tags, moves) = parse_pgn(&text).unwrap();
    assert_eq!(tags[0], ("Event".to_string(), "?".to_string()));
    assert_eq!(tags[6], ("Result".to_string(), "1-0".to_string()));
    assert_eq!(tags[7], ("White".to_string(), "Alice".to_string()));
    let sans: Vec<String> = game
        .history()
        .iter()
        .map(|h| h.2.trim_end_matches(['!', '?', '+', '#']).to_string())
        .collect();
    assert_eq!(moves, sans);
    assert_eq!(moves.last().unwrap(), "Qxf7");
}

#[test]
fn tactics_on_small_boards() {
    let ep = Move::with_flag(36, 43, MoveFlag::EnPassant);
    assert_eq!(capture_square(&ep), 35);
    assert_eq!(capture_square(&Move::new(12, 28)), 28);

    let start = Board::starting_position();
    assert_eq!(with_side_to_move(&start, Color::Black).side_to_move, Color::Black);
    assert!(try_apply_move(&start, &Move::with_flag(12, 28, MoveFlag::DoublePawnPush)).is_some());
    assert!(try_apply_move(&start, &Move::new(12, 36)).is_none());

    let pawns = parse_fen("4k3/8/8/3p4/4P3/8/8/4K3 w - - 0 1").unwrap();
    let direct = get_direct_attackers(&pawns, 35, Color::White);
    assert_eq!(direct, vec![BoardPiece::new(Piece::new(PieceType::Pawn, Color::White), 28)]);

    let battery = parse_fen("4k3/8/8/3p4/8/8/3R4/3RK3 w - - 0 1").unwrap();
    assert_eq!(get_direct_attackers(&battery, 35, Color::White).len(), 1);
    let all = get_attackers(&battery, 35, Color::White);
    assert_eq!(all.len(), 2);
    assert_eq!(all[0].square, 11);
    assert_eq!(all[1].square, 3);

    let queen = parse_fen("4k3/8/8/3q4/4P3/8/8/4K3 w - - 0 1").unwrap();
    let q = BoardPiece::new(Piece::new(PieceType::Queen, Color::Black), 35);
    assert!(!is_piece_safe(&queen, &q));
    assert_eq!(get_unsafe_pieces(&queen, Color::Black, None), vec![q]);
    assert!(get_unsafe_pieces(&queen, Color::Black, Some(900)).is_empty());
    let knight = parse_fen("4k3/8/8/8/4N3/8/8/4K3 w - - 0 1").unwrap();
    assert!(is_piece_safe(&knight, &BoardPiece::new(Piece::new(PieceType::Knight, Color::White), 28)));

    let mate_in_one = parse_fen("6k1/5ppp/8/8/8/8/8/R5K1 w - - 0 1").unwrap();
    assert!(any_move_is_checkmate(&mate_in_one));
    assert!(!any_move_is_checkmate(&start));
}

#[test]
fn evaluation_accessors() {
    assert_eq!(Evaluation::Centipawn(35).centipawn(), Some(35));
    assert_eq!(Evaluation::Mate(2).centipawn(), None);
    assert_eq!(Evaluation::Mate(2).mate_in(), Some(2));
    assert_eq!(Evaluation::Centipawn(-7).subjective(Color::Black), Evaluation::Centipawn(7));
    assert_eq!(Evaluation::Mate(-3).subjective(Color::White), Evaluation::Mate(-3));
    assert_eq!(Evaluation::Mate(-3).value(), -3);
    assert!(ClassificationKind::Best.shows_suggestion());
    assert!(!ClassificationKind::Book.shows_suggestion());
    assert_eq!(ClassificationKind::Inaccuracy.to_string(), "Inaccuracy");
}

#[test]
fn classification_priority_order() {
    let start = Board::starting_position();
    let mut c = ctx(Evaluation::Centipawn(20), Evaluation::Centipawn(25), None, Color::White);
    c.is_book = true;
    assert_eq!(classify_in_order(&start, &start, &c, true, ClassificationKind::Blunder), ClassificationKind::Book);
    c.is_book = false;
    c.is_forced = true;
    assert_eq!(classify_in_order(&start, &start, &c, true, ClassificationKind::Blunder), ClassificationKind::Forced);
    c.is_forced = false;
    assert_eq!(classify_in_order(&start, &start, &c, true, ClassificationKind::Blunder), ClassificationKind::Great);
    assert_eq!(classify_in_order(&start, &start, &c, false, ClassificationKind::Excellent), ClassificationKind::Excellent);
    let queen = parse_fen("4k3/8/8/3q4/4P3/8/8/4K3 w - - 0 1").unwrap();
    let black = ctx(Evaluation::Centipawn(20), Evaluation::Centipawn(25), None, Color::Black);
    assert_eq!(classify_in_order(&queen, &queen, &black, false, ClassificationKind::Best), ClassificationKind::Risky);
    assert_eq!(classify_in_order(&queen, &queen, &black, false, ClassificationKind::Mistake), ClassificationKind::Mistake);
}

#[test]
fn review_corrections() {
    // Only mistakes and worse pass a Mistake threshold.
    for k in [ClassificationKind::Forced, ClassificationKind::Book, ClassificationKind::Risky, ClassificationKind::Miss] {
        assert!(!meets_threshold(k, Some(ClassificationKind::Mistake)));
    }
    assert!(meets_threshold(ClassificationKind::Mistake, Some(ClassificationKind::Mistake)));
    // Absent clocks take their defaults.
    let b = parse_fen("8/8/8/8/8/8/8/K6k w - -").unwrap();
    assert_eq!((b.halfmove_clock, b.fullmove_number), (0, 1));
    match Game::from_fen("8/8/8/8/8/8/8/K6k w - - x 1") {
        Err(e) => assert_eq!(e.message, "Invalid halfmove clock: 'x'"),
        Ok(_) => panic!("expected an error"),
    }
    // Words before the first keyword join its value.
    assert_eq!(parse_option_line("option x name H").unwrap().name, "x H");
    // A SAN token with marks is not a written SAN.
    let start = "rnbqkbnr/pppppppp/8/8/8/8/PPPPPPPP/RNBQKBNR w KQkq - 0 1";
    assert_eq!(
        lazychess::pgn::pgn_moves_to_uci(start, &["e4!".to_string()]).unwrap_err().message,
        "No legal move matches SAN 'e4!'"
    );
    assert_eq!(lazychess::pgn::pgn_moves_to_uci(start, &["e4".to_string()]).unwrap(), vec!["e2e4"]);
    // Text that is no move is an error, whatever its characters.
    let mut game = Game::new();
    assert_eq!(game.do_move("a\u{e9}24").unwrap_err().message, "Illegal or unrecognised move: 'a\u{e9}24'");
    assert!(game.do_move("e4!").is_ok());
    game.do_move("e5").unwrap();
    assert_eq!(game.get_pgn(), "1. e4 e5 *");
}

#[test]
fn law_position_key_ignores_clocks() {
    let a = parse_fen("r3k2r/8/8/8/4P3/8/8/R3K2R b KQkq e3 5 20").unwrap();
    let b = parse_fen("r3k2r/8/8/8/4P3/8/8/R3K2R b KQkq e3 0 1").unwrap();
    assert_eq!(a.position_key(), b.position_key());
    assert_eq!(a.position_key(), "r3k2r/8/8/8/4P3/8/8/R3K2R b KQkq e3");
    assert_eq!(board_to_fen(&a), format!("{} 5 20", a.position_key()));
}
