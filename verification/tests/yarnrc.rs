use yarn_berry_fetcher::yarnrc::{NpmRegistry, RegistryTokens, TokenError, IMPURE_ENV_HINT};

fn tokens(pairs: &[(&str, &str)]) -> RegistryTokens {
    RegistryTokens::from_tokens(
        pairs
            .iter()
            .map(|(registry, token)| (registry.to_string(), token.to_string()))
            .collect(),
    )
}

type Variables = Vec<(String, Result<String, String>)>;

fn variables(pairs: &[(&str, &str)]) -> Variables {
    pairs
        .iter()
        .map(|(name, value)| (name.to_string(), Ok(value.to_string())))
        .collect()
}

fn load_token(token: &str, env: &Variables) -> Result<RegistryTokens, TokenError> {
    RegistryTokens::load(
        Some(vec![registry("//npm.example.com", Some(token))]),
        env,
    )
}

fn registry(registry: &str, token: Option<&str>) -> NpmRegistry {
    NpmRegistry {
        registry: registry.to_string(),
        npm_auth_token: token.map(|t| t.to_string()),
    }
}

#[test]
fn matches_a_scheme_relative_registry_against_an_https_url() {
    let tokens = tokens(&[("//npm.pkg.github.com", "gh")]);

    assert_eq!(
        tokens.for_url("https://npm.pkg.github.com/@scope/pkg/-/pkg-1.0.0.tgz"),
        Some("gh")
    );
}

#[test]
fn matches_a_registry_written_with_a_scheme() {
    let tokens = tokens(&[("https://npm.example.com", "t")]);

    assert_eq!(tokens.for_url("https://npm.example.com/pkg.tgz"), Some("t"));
    // The scheme is not what decides the match.
    assert_eq!(tokens.for_url("http://npm.example.com/pkg.tgz"), Some("t"));
}

#[test]
fn ignores_a_trailing_slash_on_either_side() {
    let tokens = tokens(&[("//npm.example.com/", "t")]);

    assert_eq!(tokens.for_url("https://npm.example.com"), Some("t"));
    assert_eq!(tokens.for_url("https://npm.example.com/pkg.tgz"), Some("t"));
}

#[test]
fn does_not_match_a_host_that_merely_starts_the_same() {
    let tokens = tokens(&[("//npm.example.com", "t")]);

    assert_eq!(
        tokens.for_url("https://npm.example.com.attacker.test/pkg.tgz"),
        None
    );
    assert_eq!(tokens.for_url("https://registry.npmjs.org/pkg.tgz"), None);
}

#[test]
fn prefers_the_registry_with_the_longest_matching_path() {
    let tokens = tokens(&[
        ("//npm.example.com", "host"),
        ("//npm.example.com/team", "team"),
    ]);

    assert_eq!(
        tokens.for_url("https://npm.example.com/team/pkg.tgz"),
        Some("team")
    );
    assert_eq!(
        tokens.for_url("https://npm.example.com/other/pkg.tgz"),
        Some("host")
    );
}

#[test]
fn a_yarnrc_without_registries_yields_no_tokens() {
    assert_eq!(
        tokens(&[]).for_url("https://registry.npmjs.org/pkg.tgz"),
        None
    );
}

#[test]
fn a_missing_yarnrc_is_not_an_error() {
    let tokens = RegistryTokens::load(None, &variables(&[])).unwrap();
    assert_eq!(tokens.for_url("https://npm.example.com/pkg.tgz"), None);
}

#[test]
fn a_registry_without_a_token_is_passed_over() {
    let tokens = RegistryTokens::load(
        Some(vec![
            registry("//npm.example.com/team", None),
            registry("//npm.example.com", Some("t")),
        ]),
        &variables(&[]),
    )
    .unwrap();
    assert_eq!(
        tokens.for_url("https://npm.example.com/team/pkg.tgz"),
        Some("t")
    );
}

#[test]
fn expands_environment_variables_in_a_token() {
    let env = variables(&[("YBF_TEST_TOKEN", "s3cr3t")]);

    let tokens = load_token("${YBF_TEST_TOKEN}", &env).unwrap();
    assert_eq!(
        tokens.for_url("https://npm.example.com/pkg.tgz"),
        Some("s3cr3t")
    );

    // An unset variable is what raises the impureEnvVars hint.
    assert!(load_token("${YBF_TEST_MISSING}", &env).is_err());

    assert_eq!(
        load_token("${YBF_TEST_MISSING:-fallback}", &env)
            .unwrap()
            .for_url("https://npm.example.com/pkg.tgz"),
        Some("fallback")
    );

    // Yarn resolves this one differently.
    assert_eq!(
        load_token("literal-$YBF_TEST_TOKEN", &env)
            .unwrap()
            .for_url("https://npm.example.com/pkg.tgz"),
        Some("literal-s3cr3t")
    );
}

#[test]
fn expansion_keeps_the_text_around_it() {
    let tokens = load_token("pre-${YBF_TEST_MISSING:-x}-post", &variables(&[])).unwrap();
    assert_eq!(
        tokens.for_url("https://npm.example.com/pkg.tgz"),
        Some("pre-x-post")
    );
}

#[test]
fn a_set_variable_is_preferred_to_a_fallback() {
    for (value, expected) in [("v", "v"), ("", "")] {
        let tokens = load_token("${A:-fallback}", &variables(&[("A", value)])).unwrap();
        assert_eq!(tokens.for_url("npm.example.com"), Some(expected));
    }
}

#[test]
fn what_is_said_of_a_variable_is_reported() {
    let error = load_token("x${A}", &variables(&[])).unwrap_err();
    assert_eq!(
        error.cause,
        "error looking key 'A' up: environment variable not found"
    );
    let env = vec![("A".to_string(), Err("unreadable".to_string()))];
    let error = load_token("x${A}", &env).unwrap_err();
    assert_eq!(error.cause, "error looking key 'A' up: unreadable");
    let tokens = load_token("${A:-f}", &env).unwrap();
    assert_eq!(tokens.for_url("npm.example.com"), Some("f"));
}

#[test]
fn an_unset_variable_in_a_token_is_an_error() {
    let error = RegistryTokens::load(
        Some(vec![
            registry("//one.example.com", Some("plain")),
            registry("//npm.example.com", Some("${YBF_TEST_MISSING}")),
        ]),
        &variables(&[]),
    )
    .unwrap_err();
    assert_eq!(error.registry, "//npm.example.com");
    let messages = error.messages("dir/.yarnrc.yml");
    assert_eq!(
        messages[0],
        "resolving the npmAuthToken of registry //npm.example.com in dir/.yarnrc.yml"
    );
    assert_eq!(messages[1], IMPURE_ENV_HINT);
    assert_eq!(messages.len(), 3);
}

#[test]
fn expansions_decide_what_is_loaded() {
    let tokens = RegistryTokens::from_expansions(vec![
        ("//a.example.com".to_string(), Ok("x".to_string())),
        ("//b.example.com".to_string(), Ok("y".to_string())),
    ])
    .unwrap();
    assert_eq!(tokens.for_url("https://b.example.com/"), Some("y"));

    let error = RegistryTokens::from_expansions(vec![
        ("//a.example.com".to_string(), Ok("x".to_string())),
        ("//b.example.com".to_string(), Err("no".to_string())),
        ("//c.example.com".to_string(), Err("never".to_string())),
    ])
    .unwrap_err();
    assert_eq!(error.registry, "//b.example.com");
    assert_eq!(error.cause, "no");
}

#[test]
fn of_equal_registries_the_first_is_asked() {
    let tokens = tokens(&[("//npm.example.com", "one"), ("npm.example.com/", "two")]);
    assert_eq!(tokens.for_url("npm.example.com/pkg.tgz"), Some("one"));
}

#[test]
fn no_configuration_is_the_default() {
    assert_eq!(RegistryTokens::default().for_url("https://a"), None);
}
