use yarn_berry_fetcher::fetch::{
    after, load_registry_tokens, may_repeat, retry_message, Event, Failure, Next, Step, MAX_ATTEMPTS,
};
use yarn_berry_fetcher::yarnrc::{NpmRegistry, RegistryTokens};

#[test]
fn a_file_is_fetched_step_by_step() {
    let steps = [
        (Event::TempfileOpened, Step::SendRequest),
        (Event::Responded { status: 200 }, Step::ReadChunk),
        (Event::ChunkRead, Step::CopyChunk),
        (Event::ChunkCopied, Step::ReadChunk),
        (Event::BodyEnded, Step::Rewind),
    ];
    for (event, step) in steps {
        assert_eq!(after(event), Next::Go { step });
    }
    assert_eq!(after(Event::Rewound), Next::Finish);
}

#[test]
fn failures_of_the_network_are_transient() {
    for (step, transient, text) in [
        (Step::OpenTempfile, false, "opening tempfile"),
        (Step::SendRequest, true, "sending http request"),
        (Step::ReadChunk, true, "reading response chunk"),
        (
            Step::CopyChunk,
            false,
            "copying response chunk into tempfile",
        ),
        (
            Step::Rewind,
            false,
            "seeking tempfile back to the beginning",
        ),
    ] {
        match after(Event::Failed { step }) {
            Next::Stop {
                failure,
                is_transient,
            } => {
                assert_eq!(failure, Failure::Step { step });
                assert_eq!(is_transient, transient);
                assert_eq!(failure.message(""), text);
            }
            other => panic!("{other:?}"),
        }
    }
}

#[test]
fn only_some_statuses_are_successful() {
    for status in [100, 199, 300, 404, 500] {
        let failure = Failure::Status { status };
        assert_eq!(
            after(Event::Responded { status }),
            Next::Stop {
                failure,
                is_transient: true
            }
        );
    }
    for status in [200, 204, 299] {
        assert!(matches!(
            after(Event::Responded { status }),
            Next::Go { .. }
        ));
    }
    assert_eq!(
        Failure::Status { status: 404 }.message("404 Not Found"),
        "non-successful HTTP response: 404 Not Found"
    );
}

#[test]
fn repeated_attempts_are_announced() {
    assert_eq!(retry_message(0, "u"), None);
    assert_eq!(
        retry_message(1, "https://x"),
        Some("Failed to fetch (on try 0/5): https://x".to_string())
    );
    assert_eq!(
        retry_message(5, "https://x"),
        Some("Failed to fetch (on try 4/5): https://x".to_string())
    );
}

fn registry(registry: &str, token: Option<&str>) -> NpmRegistry {
    NpmRegistry {
        registry: registry.to_string(),
        npm_auth_token: token.map(|t| t.to_string()),
    }
}

#[test]
fn registries_with_tokens_are_kept() {
    assert!(load_registry_tokens(None).is_empty());
    let tokens = load_registry_tokens(Some(vec![
        registry("https://a", Some("1")),
        registry("https://b", None),
        registry("https://c", Some("${RAW}")),
    ]));
    assert_eq!(
        tokens,
        [
            ("https://a".to_string(), "1".to_string()),
            ("https://c".to_string(), "${RAW}".to_string()),
        ]
    );
}

#[test]
fn requests_to_registries_with_tokens_are_authenticated() {
    let tokens = RegistryTokens::from_tokens(load_registry_tokens(Some(vec![
        registry("//npm.pkg.github.com", Some("gh")),
        registry("https://b.test/", Some("2")),
        registry("https://b.test/c", Some("3")),
        registry("//a.test", None),
    ])));
    assert_eq!(
        tokens.for_url("https://npm.pkg.github.com/@scope/pkg/-/pkg-1.0.0.tgz"),
        Some("gh")
    );
    assert_eq!(tokens.for_url("https://b.test/c/d.tgz"), Some("3"));
    assert_eq!(tokens.for_url("https://b.test/d.tgz"), Some("2"));
    assert_eq!(tokens.for_url("https://b.test.more/d.tgz"), None);
    assert_eq!(tokens.for_url("https://a.test/d.tgz"), None);
}

/// How many attempts are made, and whether the file is fetched.
fn attempts(events: &[Event]) -> (usize, bool) {
    for (i, event) in events.iter().enumerate() {
        match after(*event) {
            Next::Finish => return (i + 1, true),
            Next::Stop { is_transient, .. } => {
                if !may_repeat(i + 1, is_transient) {
                    return (i + 1, false);
                }
            }
            Next::Go { .. } => panic!("the attempt goes on"),
        }
    }
    panic!("there is another attempt");
}

#[test]
fn requests_are_repeated_up_to_a_limit() {
    assert_eq!(MAX_ATTEMPTS, 5);
    assert!(may_repeat(5, true));
    assert!(!may_repeat(6, true));
    assert!(!may_repeat(1, false));

    let busy = Event::Responded { status: 503 };
    let unsent = Event::Failed {
        step: Step::SendRequest,
    };
    let cut_short = Event::Failed {
        step: Step::ReadChunk,
    };
    let full = Event::Failed {
        step: Step::CopyChunk,
    };
    assert_eq!(attempts(&[Event::Rewound, busy]), (1, true));
    assert_eq!(attempts(&[busy, unsent, Event::Rewound]), (3, true));
    assert_eq!(
        attempts(&[busy, unsent, cut_short, busy, busy, Event::Rewound]),
        (6, true)
    );
    assert_eq!(
        attempts(&[busy, busy, busy, busy, busy, busy, Event::Rewound]),
        (6, false)
    );
    assert_eq!(attempts(&[busy, full, Event::Rewound]), (2, false));
}
