use filler::server::{
    chosen_engine_dir, engine_arguments, engine_set_for, robots_dir, EngineSet, record_match, series_step, SeriesProgress, SeriesStep, error_event, game_seed, log_event, log_file_name,
    match_end_event, match_players, match_start_event, parse_args, read_header_line,
    replay_name, request_line_parts, response_head, route, series_end_event,
    series_start_event, setup_event, static_file_name, stopping_json, ArgsError, ArgsOutcome,
    HeaderLine, Route,
};
use filler::visualizer::{
    options_json, sorted_names, status_json, MatchResult, ServerStatus, StartRequest,
};

fn strings(items: &[&str]) -> Vec<String> {
    items.iter().map(|item| item.to_string()).collect()
}

fn request() -> StartRequest {
    StartRequest {
        map: "map01".to_owned(),
        opponent: "bender".to_owned(),
        side: "alternate".to_owned(),
        games: 3,
        seed: Some(7),
        live: false,
    }
}

#[test]
fn command_line_defaults_and_values() {
    match parse_args(&strings(&["visualizer"])) {
        Ok(ArgsOutcome::Run(config)) => {
            assert_eq!(config.addr, "127.0.0.1:8080");
            assert_eq!(config.engine_dir, None);
            assert_eq!(config.image, "filler");
            assert!(!config.no_open);
        }
        _ => panic!("expected settings"),
    }
    let args = strings(&[
        "visualizer",
        "--addr",
        "0.0.0.0:9000",
        "--no-open",
        "--engine-dir",
        "/opt/engine",
        "--image",
        "one",
        "--image",
        "two",
    ]);
    match parse_args(&args) {
        Ok(ArgsOutcome::Run(config)) => {
            assert_eq!(config.addr, "0.0.0.0:9000");
            assert_eq!(config.engine_dir, Some("/opt/engine".to_owned()));
            assert_eq!(config.image, "two");
            assert!(config.no_open);
        }
        _ => panic!("expected settings"),
    }
    match parse_args(&strings(&["visualizer", "--addr", "--help"])) {
        Ok(ArgsOutcome::Run(config)) => assert_eq!(config.addr, "--help"),
        _ => panic!("a flag's value is taken as it stands"),
    }
}

#[test]
fn command_line_help_and_errors() {
    assert!(matches!(parse_args(&strings(&["v", "-h"])), Ok(ArgsOutcome::Help)));
    assert!(matches!(
        parse_args(&strings(&["v", "--no-open", "--help", "--bogus"])),
        Ok(ArgsOutcome::Help)
    ));
    match parse_args(&strings(&["v", "--image"])) {
        Err(error) => {
            assert!(matches!(&error, ArgsError::MissingValue(flag) if flag == "--image"));
            assert_eq!(error.message(), "--image requires a value");
        }
        _ => panic!("expected a missing value"),
    }
    match parse_args(&strings(&["v", "--bogus", "--help"])) {
        Err(error) => {
            assert!(matches!(&error, ArgsError::Unknown(value) if value == "--bogus"));
            assert_eq!(error.message(), "unknown argument: --bogus");
        }
        _ => panic!("expected an unknown argument"),
    }
}

#[test]
fn engine_directory_choice() {
    assert_eq!(
        chosen_engine_dir(Some("/a".to_owned()), Some("/b".to_owned())),
        Some("/a".to_owned())
    );
    assert_eq!(chosen_engine_dir(None, Some("/b".to_owned())), Some("/b".to_owned()));
    assert_eq!(chosen_engine_dir(None, Some(" \t ".to_owned())), None);
    assert_eq!(chosen_engine_dir(None, None), None);
}

#[test]
fn request_lines_and_headers() {
    assert_eq!(
        request_line_parts("GET /api/status HTTP/1.1\r\n"),
        ("GET".to_owned(), "/api/status".to_owned())
    );
    assert_eq!(request_line_parts("  POST\t/x  "), ("POST".to_owned(), "/x".to_owned()));
    assert_eq!(request_line_parts("GET"), ("GET".to_owned(), "/".to_owned()));
    assert_eq!(request_line_parts(""), ("".to_owned(), "/".to_owned()));

    assert!(matches!(read_header_line("\r\n"), HeaderLine::End));
    assert!(matches!(read_header_line("\n"), HeaderLine::End));
    assert!(matches!(read_header_line("Content-Length: 12\r\n"), HeaderLine::ContentLength(12)));
    assert!(matches!(read_header_line("CONTENT-LENGTH:+7"), HeaderLine::ContentLength(7)));
    assert!(matches!(read_header_line("content-length: abc\r\n"), HeaderLine::ContentLength(0)));
    assert!(matches!(
        read_header_line("content-length: 99999999999999999999999\r\n"),
        HeaderLine::ContentLength(0)
    ));
    assert!(matches!(read_header_line("Host: example\r\n"), HeaderLine::Other));
    assert!(matches!(read_header_line(" \r\n"), HeaderLine::Other));
}

#[test]
fn requests_are_routed() {
    assert_eq!(route("GET", "/api/events"), Route::Events);
    assert_eq!(route("GET", "/api/status"), Route::Status);
    assert_eq!(route("GET", "/api/options"), Route::Options);
    assert_eq!(route("POST", "/api/matches/start"), Route::Start);
    assert_eq!(route("POST", "/api/matches/stop"), Route::Stop);
    assert_eq!(route("GET", "/api/replays/raw?name=a.log"), Route::RawReplay);
    assert_eq!(route("GET", "/index.html"), Route::Static { head: false });
    assert_eq!(route("HEAD", "/api/status"), Route::Static { head: true });
    assert_eq!(route("POST", "/api/status"), Route::NotAllowed);
    assert_eq!(route("DELETE", "/"), Route::NotAllowed);
}

#[test]
fn replay_and_static_names() {
    assert_eq!(replay_name("/api/replays/raw?name=a%20b.log"), "a b.log");
    assert_eq!(replay_name("/api/replays/raw?x=1&name=foo&name=bar"), "foo");
    assert_eq!(replay_name("/api/replays/raw?name&name=z"), "z");
    assert_eq!(replay_name("/api/replays/raw?names=z"), "");
    assert_eq!(replay_name("/api/replays/raw"), "");

    assert_eq!(static_file_name("/"), Some("index.html".to_owned()));
    assert_eq!(static_file_name("/app.js?v=1"), Some("app.js".to_owned()));
    assert_eq!(static_file_name("//style.css"), Some("style.css".to_owned()));
    assert_eq!(static_file_name("/a/b.js"), None);
    assert_eq!(static_file_name("/..x"), None);
    assert_eq!(static_file_name("/a\\b"), None);
    assert_eq!(static_file_name("/?q"), Some("index.html".to_owned()));
    assert_eq!(static_file_name("?q"), None);
}

#[test]
fn response_heads() {
    assert_eq!(
        response_head(200, "text/plain", 5),
        "HTTP/1.1 200 OK\r\nContent-Type: text/plain\r\nContent-Length: 5\r\nCache-Control: no-cache\r\nConnection: close\r\n\r\n"
    );
    assert_eq!(
        response_head(418, "application/json", 0),
        "HTTP/1.1 418 Error\r\nContent-Type: application/json\r\nContent-Length: 0\r\nCache-Control: no-cache\r\nConnection: close\r\n\r\n"
    );
}

#[test]
fn events_are_json() {
    assert_eq!(setup_event("a\"b"), "{\"type\":\"setup\",\"message\":\"a\\\"b\"}");
    assert_eq!(error_event("bad"), "{\"type\":\"error\",\"message\":\"bad\"}");
    assert_eq!(
        series_start_event(&request()),
        "{\"type\":\"series_start\",\"map\":\"map01\",\"opponent\":\"bender\",\"games\":3,\"side\":\"alternate\",\"live\":false}"
    );
    assert_eq!(
        match_start_event(2, &request(), "p2"),
        "{\"type\":\"match_start\",\"index\":2,\"games\":3,\"map\":\"map01\",\"opponent\":\"bender\",\"side\":\"p2\",\"live\":false}"
    );
    assert_eq!(log_event(1, "<got (O): [2, 3]\t"), "{\"type\":\"log\",\"index\":1,\"line\":\"<got (O): [2, 3]\\t\"}");
    let result = MatchResult {
        index: 1,
        file: "f.log".to_owned(),
        map: "m".to_owned(),
        opponent: "o".to_owned(),
        side: "p1".to_owned(),
        seed: 0,
        p1_score: 3,
        p2_score: 1,
        winner: 1,
        student_won: true,
        error: String::new(),
    };
    assert_eq!(
        match_end_event(&result),
        "{\"type\":\"match_end\",\"result\":{\"index\":1,\"file\":\"f.log\",\"map\":\"m\",\"opponent\":\"o\",\"side\":\"p1\",\"seed\":0,\"p1Score\":3,\"p2Score\":1,\"winner\":1,\"studentWon\":true,\"error\":\"\"}}"
    );
    assert_eq!(
        series_end_event(2, 3, 5, true),
        "{\"type\":\"series_end\",\"wins\":2,\"completed\":3,\"requested\":5,\"stopped\":true}"
    );
    assert_eq!(stopping_json(true), "{\"stopping\":true}");
    assert_eq!(stopping_json(false), "{\"stopping\":false}");
}

#[test]
fn engine_runs() {
    assert_eq!(game_seed(Some(7), 2), Some(9));
    assert_eq!(game_seed(Some(-3), 0), Some(-3));
    assert_eq!(game_seed(None, 4), None);

    let player = "/filler/solution/target/docker-linux/release/filler".to_owned();
    assert_eq!(match_players(EngineSet::Linux, "p1", "bender"), (player.clone(), "linux_robots/bender".to_owned()));
    assert_eq!(match_players(EngineSet::Linux, "p2", "bender"), ("linux_robots/bender".to_owned(), player));

    assert_eq!(
        engine_arguments(EngineSet::Linux, "/home/me/filler", "filler", "map01", "a", "b", None),
        strings(&[
            "run",
            "--rm",
            "-v",
            "/home/me/filler:/filler/solution",
            "--entrypoint",
            "/filler/linux_game_engine",
            "filler",
            "-f",
            "maps/map01",
            "-p1",
            "a",
            "-p2",
            "b",
        ])
    );
    let seeded = engine_arguments(EngineSet::Linux, "/p", "img", "m", "a", "b", Some(-12));
    assert_eq!(seeded.len(), 15);
    assert_eq!(seeded[13], "-s");
    assert_eq!(seeded[14], "-12");

    assert_eq!(log_file_name(1700, "m", "o", 3, "p1"), "1700-m-o-03-p1.log");
    assert_eq!(
        log_file_name(340282366920938463463374607431768211455, "m", "o", 12, "p2"),
        "340282366920938463463374607431768211455-m-o-12-p2.log"
    );
}

#[test]
fn option_lists_are_sorted_safe_names() {
    let names = strings(&["b", "a", "bad name", "a.b", "A", "", "a"]);
    assert_eq!(sorted_names(&names), strings(&["A", "a", "a", "a.b", "b"]));
    assert_eq!(sorted_names(&Vec::new()), Vec::<String>::new());
    assert_eq!(
        options_json(&strings(&["m1"]), &strings(&["r1", "r\"2"])),
        "{\"maps\":[\"m1\"],\"opponents\":[\"r1\",\"r\\\"2\"]}"
    );
}

#[test]
fn server_status_is_json() {
    let status = ServerStatus {
        project_dir: "/p".to_owned(),
        engine_dir: "/e".to_owned(),
        engine_ready: false,
        engine_error: "missing".to_owned(),
        docker_ready: true,
        image_ready: false,
        image: "filler".to_owned(),
        running: true,
    };
    assert_eq!(
        status_json(&status),
        "{\"server\":true,\"projectDir\":\"/p\",\"engineDir\":\"/e\",\"engineReady\":false,\"engineError\":\"missing\",\"dockerReady\":true,\"imageReady\":false,\"image\":\"filler\",\"running\":true,\"autoSetupNote\":\"The Rust player and Docker image are prepared automatically when a match starts.\"}"
    );
}

#[test]
fn series_steps_through_its_games() {
    let request = request();
    let start = SeriesProgress::start();
    match series_step(&request, start, false) {
        SeriesStep::Play { index, side, seed } => {
            assert_eq!(index, 1);
            assert_eq!(side, "p1");
            assert_eq!(seed, Some(7));
        }
        _ => panic!("expected a game"),
    }
    let after_one = record_match(start, true);
    assert_eq!(after_one, SeriesProgress { next_game: 1, wins: 1, completed: 1 });
    match series_step(&request, after_one, false) {
        SeriesStep::Play { index, side, seed } => {
            assert_eq!(index, 2);
            assert_eq!(side, "p2");
            assert_eq!(seed, Some(8));
        }
        _ => panic!("expected a game"),
    }
    let after_two = record_match(after_one, false);
    assert_eq!(after_two, SeriesProgress { next_game: 2, wins: 1, completed: 2 });
    match series_step(&request, after_two, true) {
        SeriesStep::Finish { wins, completed, requested, stopped } => {
            assert_eq!((wins, completed, requested, stopped), (1, 2, 3, true));
        }
        _ => panic!("a stop ends the series"),
    }
    let done = SeriesProgress { next_game: 3, wins: 2, completed: 3 };
    match series_step(&request, done, false) {
        SeriesStep::Finish { wins, completed, requested, stopped } => {
            assert_eq!((wins, completed, requested, stopped), (2, 3, 3, false));
        }
        _ => panic!("the series is over"),
    }
}

#[test]
fn engine_set_follows_the_architecture() {
    assert_eq!(engine_set_for("x86_64\n"), EngineSet::Linux);
    assert_eq!(engine_set_for("amd64"), EngineSet::Linux);
    assert_eq!(engine_set_for("aarch64\n"), EngineSet::M1);
    assert_eq!(engine_set_for(" arm64 "), EngineSet::M1);
    assert_eq!(engine_set_for("arm"), EngineSet::Linux);
    assert_eq!(robots_dir(EngineSet::Linux), "linux_robots");
    assert_eq!(robots_dir(EngineSet::M1), "m1_robots");
    let player = "/filler/solution/target/docker-linux/release/filler".to_owned();
    assert_eq!(
        match_players(EngineSet::M1, "p2", "wall_e"),
        ("m1_robots/wall_e".to_owned(), player)
    );
    let args = engine_arguments(EngineSet::M1, "/p", "img", "m", "a", "b", None);
    assert_eq!(args[5], "/filler/m1_game_engine");
}
