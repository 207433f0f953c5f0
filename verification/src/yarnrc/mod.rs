//! Registry credentials out of `.yarnrc.yml`.
//!
//! The values of `npmAuthToken` are expanded by `shellexpand`. It expands a bare `$NAME`,
//! takes `:-` as falling back only when a variable is unset, has no `${NAME-fallback}` operator,
//! ignores the `\$` escape and leaves an unclosed `${` alone. The interpolation that yarn itself
//! applies to such values is in [`env`].

pub mod env;

use crate::text;
use vstd::prelude::*;
use vstd::string::*;
use vstd::utf8::*;

verus! {

/// What to tell a user whose token could not be expanded.
pub const IMPURE_ENV_HINT: &'static str = "
This npmAuthToken reads the environment. Nix clears the environment of a
fetchYarnBerryDeps derivation, so pass the variable through with impureEnvVars,
which needs the configurable-impure-env experimental feature:

  fetchYarnBerryDeps {
    # ...
    impureEnvVars = lib.fetchers.proxyImpureEnvVars ++ [ \"NPM_AUTH_TOKEN\" ];
  }

Append to proxyImpureEnvVars rather than assigning a bare list. Caller arguments
overwrite the proxy variables that fetchYarnBerryDeps sets for itself.
";

/// One entry of `npmRegistries`.
#[derive(Debug)]
pub struct NpmRegistry {
    /// The key: the registry's URL, with or without a scheme.
    pub registry: String,
    /// Its `npmAuthToken`.
    pub npm_auth_token: Option<String>,
}

/// A token that could not be expanded.
#[derive(Debug)]
pub struct TokenError {
    /// The registry that the token is for.
    pub registry: String,
    /// Why it could not be expanded.
    pub cause: String,
}

/// The `npmAuthToken`s from a `.yarnrc.yml`, keyed by the registry they authenticate to.
#[derive(Debug)]
pub struct RegistryTokens {
    /// Normalized `host[/path]` prefixes and their token, longest prefix first.
    entries: Vec<(String, String)>,
}

/// The text behind the scheme and its `://`, if there is one.
pub open spec fn without_scheme(s: Seq<char>) -> Seq<char> {
    match text::split_first(s, "://"@) {
        Some((_, rest)) => rest,
        None => s,
    }
}

/// The `host[/path]` that registries and URLs compare on.
pub open spec fn normalized(s: Seq<char>) -> Seq<char> {
    text::trimmed_end(text::trimmed_start(without_scheme(s), '/'), '/')
}

/// Whether the normalized `url` is the normalized `registry` or under it.
pub open spec fn covers(registry: Seq<char>, url: Seq<char>) -> bool {
    &&& text::has_prefix(url, registry)
    &&& url.len() == registry.len() || url[registry.len() as int] == '/'
}

/// Whether registry `a` is asked before `b`: the longer one first, in bytes, and those of one
/// length as in the dictionary.
pub open spec fn precedes(a: Seq<char>, b: Seq<char>) -> bool {
    ||| text::byte_len(a) > text::byte_len(b)
    ||| text::byte_len(a) == text::byte_len(b) && text::bytes_before(
        encode_utf8(a),
        encode_utf8(b),
    )
}

/// Whether `out` is `pairs` put in order, where `from[i]` says which of `pairs` stands at `i`:
/// each of them once, in the order of `precedes`, and those with one key as they were.
pub open spec fn put_in_order(
    out: Seq<(Seq<char>, Seq<char>)>,
    pairs: Seq<(Seq<char>, Seq<char>)>,
    from: Seq<int>,
) -> bool {
    &&& out.len() == pairs.len()
    &&& from.len() == pairs.len()
    &&& forall|i: int| 0 <= i < out.len() ==> 0 <= #[trigger] from[i] < pairs.len()
    &&& forall|i: int| 0 <= i < out.len() ==> #[trigger] out[i] == pairs[from[i]]
    &&& forall|i: int, j: int|
        #![trigger out[i], out[j]]
        0 <= i < j < out.len() ==> precedes(out[i].0, out[j].0) || (out[i].0 == out[j].0 && from[i]
            < from[j])
}

/// Whether `out` is `pairs` put in order.
pub open spec fn is_ordering_of(
    out: Seq<(Seq<char>, Seq<char>)>,
    pairs: Seq<(Seq<char>, Seq<char>)>,
) -> bool {
    exists|from: Seq<int>| #[trigger] put_in_order(out, pairs, from)
}

/// The pairs with their registries normalized.
pub open spec fn normalized_pairs(v: Seq<(Seq<char>, Seq<char>)>) -> Seq<(Seq<char>, Seq<char>)> {
    v.map_values(|p: (Seq<char>, Seq<char>)| (normalized(p.0), p.1))
}

/// Reduces a registry key or a request URL to the `host[/path]` the two compare on.
///
/// `npmRegistries` keys are conventionally scheme-relative, as in `//npm.pkg.github.com`, so
/// dropping the scheme from both sides is what lets one match an `https://` lockfile URL.
pub fn normalize_registry(registry: &str) -> (r: String)
    ensures
        r@ == normalized(registry@),
{
    let rest = match text::split_once(registry, "://") {
        Some((_scheme, rest)) => rest,
        None => registry,
    };
    text::trim_end_matches(text::trim_start_matches(rest, '/'), '/').to_owned()
}

/// Whether `a` is asked before `b`.
fn is_asked_before(a: &str, b: &str) -> (r: bool)
    ensures
        r == precedes(a@, b@),
{
    let m = a.as_bytes().len();
    let n = b.as_bytes().len();
    m > n || (m == n && text::stands_before(a, b))
}

/// Of two different registries one precedes the other, and the order is transitive.
proof fn lemma_precedes(a: Seq<char>, b: Seq<char>, c: Seq<char>)
    ensures
        a != b ==> precedes(a, b) || precedes(b, a),
        !(precedes(a, b) && precedes(b, a)),
        !precedes(a, a),
        precedes(a, b) && precedes(b, c) ==> precedes(a, c),
{
    let (x, y, z) = (encode_utf8(a), encode_utf8(b), encode_utf8(c));
    text::lemma_bytes_before_total(x, y);
    text::lemma_bytes_before_total(x, x);
    encode_utf8_decode_utf8(a);
    encode_utf8_decode_utf8(b);
    if text::bytes_before(x, y) && text::bytes_before(y, z) {
        text::lemma_bytes_before_transitive(x, y, z);
    }
}

/// The place of a new pair among pairs that are in order.
fn place_for(sorted: &Vec<(String, String)>, key: &str) -> (k: usize)
    requires
        forall|i: int, j: int|
            #![trigger sorted@[i], sorted@[j]]
            0 <= i < j < sorted.len() ==> precedes(sorted@[i].0@, sorted@[j].0@)
                || sorted@[i].0@ == sorted@[j].0@,
    ensures
        k <= sorted.len(),
        forall|i: int|
            0 <= i < k ==> precedes(#[trigger] sorted@[i].0@, key@) || sorted@[i].0@ == key@,
        forall|i: int| k <= i < sorted.len() ==> precedes(key@, #[trigger] sorted@[i].0@),
{
    let mut k: usize = 0;
    while k < sorted.len() && !is_asked_before(key, sorted[k].0.as_str())
        invariant
            k <= sorted.len(),
            forall|i: int| 0 <= i < k ==> !precedes(key@, #[trigger] sorted@[i].0@),
        decreases sorted.len() - k,
    {
        k += 1;
    }
    proof {
        assert forall|i: int| 0 <= i < k implies precedes(#[trigger] sorted@[i].0@, key@)
            || sorted@[i].0@ == key@ by {
            lemma_precedes(key@, sorted@[i].0@, key@);
        }
        assert forall|i: int| k <= i < sorted.len() implies precedes(
            key@,
            #[trigger] sorted@[i].0@,
        ) by {
            if k < i {
                lemma_precedes(key@, sorted@[k as int].0@, sorted@[i].0@);
                assert(precedes(sorted@[k as int].0@, sorted@[i].0@) || sorted@[k as int].0@
                    == sorted@[i].0@);
            }
        }
    }
    k
}

/// Puts pairs in order.
fn order(pairs: Vec<(String, String)>) -> (r: Vec<(String, String)>)
    ensures
        is_ordering_of(text::pair_texts(r@), text::pair_texts(pairs@)),
{
    let ghost all = text::pair_texts(pairs@);
    let mut r: Vec<(String, String)> = Vec::new();
    let ghost mut from: Seq<int> = Seq::empty();
    for pair in it: pairs
        invariant
            it.seq() == pairs@,
            all == text::pair_texts(pairs@),
            put_in_order(text::pair_texts(r@), all.take(it.index()), from),
    {
        let ghost n = it.index();
        let ghost old_r = r@;
        let ghost old_from = from;
        let ghost old_out = text::pair_texts(r@);
        assert forall|i: int, j: int|
            #![trigger r@[i], r@[j]]
            0 <= i < j < r.len() implies precedes(r@[i].0@, r@[j].0@) || r@[i].0@
            == r@[j].0@ by {
            assert(old_out[i].0 == r@[i].0@ && old_out[j].0 == r@[j].0@);
        }
        let k = place_for(&r, pair.0.as_str());
        r.insert(k, pair);
        proof {
            from = from.insert(k as int, n);
            let out = text::pair_texts(r@);
            let part = all.take(n + 1);
            assert(out =~= old_out.insert(k as int, text::pair_text(pair)));
            assert forall|i: int| 0 <= i < out.len() implies #[trigger] out[i] == part[from[i]] by {
                if i < k {
                    assert(old_out[i] == all.take(n)[old_from[i]]);
                } else if i > k {
                    assert(old_out[i - 1] == all.take(n)[old_from[i - 1]]);
                }
            }
            assert forall|i: int, j: int|
                #![trigger out[i], out[j]]
                0 <= i < j < out.len() implies precedes(out[i].0, out[j].0) || (out[i].0
                == out[j].0 && from[i] < from[j]) by {
                let a = if i < k { i } else { i - 1 };
                let b = if j < k { j } else { j - 1 };
                if i != k {
                    assert(out[i] == old_out[a]);
                    assert(from[i] == old_from[a]);
                    assert(out[i].0 == old_r[a].0@);
                }
                if j != k {
                    assert(out[j] == old_out[b]);
                    assert(from[j] == old_from[b]);
                    assert(out[j].0 == old_r[b].0@);
                }
            }
        }
    }
    assert(all.take(pairs@.len() as int) =~= all);
    r
}

/// The token of the first registry that covers `url`.
pub open spec fn first_token(entries: Seq<(Seq<char>, Seq<char>)>, url: Seq<char>) -> Option<
    Seq<char>,
>
    decreases entries.len(),
{
    if entries.len() == 0 {
        None
    } else if covers(entries[0].0, url) {
        Some(entries[0].1)
    } else {
        first_token(entries.drop_first(), url)
    }
}

/// The text of an outcome.
pub open spec fn outcome_text(r: Result<String, String>) -> Result<Seq<char>, Seq<char>> {
    match r {
        Ok(token) => Ok(token@),
        Err(cause) => Err(cause@),
    }
}

/// The texts of named outcomes: registries with what became of their tokens, or environment
/// variables with their values.
pub open spec fn outcome_texts(v: Seq<(String, Result<String, String>)>) -> Seq<
    (Seq<char>, Result<Seq<char>, Seq<char>>),
> {
    v.map_values(|p: (String, Result<String, String>)| (p.0@, outcome_text(p.1)))
}

/// Whether every one of the first `n` tokens was expanded.
pub open spec fn all_expanded(
    v: Seq<(Seq<char>, Result<Seq<char>, Seq<char>>)>,
    n: int,
) -> bool {
    forall|i: int| 0 <= i < n ==> (#[trigger] v[i]).1 is Ok
}

/// The expanded tokens with their registries normalized.
pub open spec fn expanded_pairs(v: Seq<(Seq<char>, Result<Seq<char>, Seq<char>>)>) -> Seq<
    (Seq<char>, Seq<char>),
> {
    v.map_values(
        |p: (Seq<char>, Result<Seq<char>, Seq<char>>)| (normalized(p.0), p.1->Ok_0),
    )
}

/// The registries that have a token, in order.
pub open spec fn with_token(v: Seq<NpmRegistry>) -> Seq<(Seq<char>, Seq<char>)>
    decreases v.len(),
{
    if v.len() == 0 {
        Seq::empty()
    } else {
        match v.last().npm_auth_token {
            Some(token) => with_token(v.drop_last()).push((v.last().registry@, token@)),
            None => with_token(v.drop_last()),
        }
    }
}

/// The text before the first `$`.
pub open spec fn plain_start(s: Seq<char>) -> Seq<char> {
    text::pieces(s, '$')[0]
}

/// What is said of a variable that is not set.
pub const NOT_SET: &'static str = "environment variable not found";

/// The value of a variable in an environment, or why it has none.
pub open spec fn value_in(
    env: Seq<(Seq<char>, Result<Seq<char>, Seq<char>>)>,
    name: Seq<char>,
) -> Result<Seq<char>, Seq<char>>
    decreases env.len(),
{
    if env.len() == 0 {
        Err(NOT_SET@)
    } else if env[0].0 == name {
        env[0].1
    } else {
        value_in(env.drop_first(), name)
    }
}

/// How a variable is referred to.
pub open spec fn reference(name: Seq<char>) -> Seq<char> {
    "${"@ + name + "}"@
}

/// How a variable is referred to that has a fallback.
pub open spec fn reference_or(name: Seq<char>, fallback: Seq<char>) -> Seq<char> {
    "${"@ + name + ":-"@ + fallback + "}"@
}

/// What `shellexpand::env_with_context` makes of a token, with the variables of an environment.
pub uninterp spec fn shell_expanded(
    token: Seq<char>,
    env: Seq<(Seq<char>, Result<Seq<char>, Seq<char>>)>,
) -> Result<Seq<char>, Seq<char>>;

/// Whether the outcome is one that the expansion of a token can have. A token without a `$` is kept,
/// and so is what stands before the first one. A token that refers to a variable is its value; if
/// there is none it is an error, or the fallback if the token has one.
pub open spec fn expands_as(
    token: Seq<char>,
    env: Seq<(Seq<char>, Result<Seq<char>, Seq<char>>)>,
    outcome: Result<Seq<char>, Seq<char>>,
) -> bool {
    &&& !token.contains('$') ==> outcome == Ok::<Seq<char>, Seq<char>>(token)
    &&& outcome is Ok ==> text::has_prefix(outcome->Ok_0, plain_start(token))
    &&& forall|name: Seq<char>|
        env::is_name(name) && token == #[trigger] reference(name) ==> outcome == match value_in(
            env,
            name,
        ) {
            Ok(value) => Ok::<Seq<char>, Seq<char>>(value),
            Err(cause) => Err("error looking key '"@ + name + "' up: "@ + cause),
        }
    &&& forall|name: Seq<char>, fallback: Seq<char>|
        env::is_name(name) && !fallback.contains('}') && token == #[trigger] reference_or(
            name,
            fallback,
        ) ==> outcome == Ok::<Seq<char>, Seq<char>>(
            match value_in(env, name) {
                Ok(value) => value,
                Err(_) => fallback,
            },
        )
}

/// What becomes of the tokens of registries in an environment.
pub open spec fn expansions(
    registries: Seq<(Seq<char>, Seq<char>)>,
    env: Seq<(Seq<char>, Result<Seq<char>, Seq<char>>)>,
) -> Seq<(Seq<char>, Result<Seq<char>, Seq<char>>)> {
    registries.map_values(|p: (Seq<char>, Seq<char>)| (p.0, shell_expanded(p.1, env)))
}

/// What [`RegistryTokens::from_expansions`] returns: the tokens in order, or the first that was not
/// expanded.
pub open spec fn is_tokens_of(
    v: Seq<(Seq<char>, Result<Seq<char>, Seq<char>>)>,
    r: Result<RegistryTokens, TokenError>,
) -> bool {
    match r {
        Ok(tokens) => all_expanded(v, v.len() as int) && is_ordering_of(tokens@, expanded_pairs(v)),
        Err(e) => exists|i: int|
            {
                &&& 0 <= i < v.len()
                &&& all_expanded(v, i)
                &&& #[trigger] v[i] == (e.registry@, Err::<Seq<char>, Seq<char>>(e.cause@))
            },
    }
}

/// Finds the value of a variable.
fn look_up(env: &Vec<(String, Result<String, String>)>, name: &str) -> (r: Result<
    Option<String>,
    String,
>)
    ensures
        match r {
            Ok(value) => value is Some && value_in(outcome_texts(env@), name@) == Ok::<
                Seq<char>,
                Seq<char>,
            >(value->Some_0@),
            Err(cause) => value_in(outcome_texts(env@), name@) == Err::<Seq<char>, Seq<char>>(
                cause@,
            ),
        },
{
    let ghost all = outcome_texts(env@);
    let mut i: usize = 0;
    assert(all.skip(0) =~= all);
    while i < env.len()
        invariant
            i <= env@.len(),
            all == outcome_texts(env@),
            value_in(all, name@) == value_in(all.skip(i as int), name@),
        decreases env@.len() - i,
    {
        proof {
            assert(all.skip(i as int)[0] == all[i as int]);
            assert(all.skip(i as int).drop_first() =~= all.skip(i + 1));
        }
        if text::same(env[i].0.as_str(), name) {
            return match &env[i].1 {
                Ok(value) => Ok(Some(value.clone())),
                Err(cause) => Err(cause.clone()),
            };
        }
        i = i + 1;
    }
    Err(NOT_SET.to_owned())
}

/// Expands the environment variables in a token by `shellexpand::env_with_context`, which asks for
/// the value of each variable that it comes upon. What it returns, or says in its error, is named
/// `shell_expanded` of the token and the environment. Beside the name stand the forms that a token
/// has as a rule: no variable, one variable, and one with a fallback, which is used if the variable
/// is not set. Of other tokens only the text before the first variable is claimed to be kept.
#[verifier::external_body]
fn shell_expand(token: &str, env: &Vec<(String, Result<String, String>)>) -> (r: Result<
    String,
    String,
>)
    ensures
        outcome_text(r) == shell_expanded(token@, outcome_texts(env@)),
        expands_as(token@, outcome_texts(env@), outcome_text(r)),
{
    match shellexpand::env_with_context(token, |name: &str| look_up(env, name)) {
        Ok(expanded) => Ok(expanded.into_owned()),
        Err(e) => Err(e.to_string()),
    }
}

impl TokenError {
    /// The message for the user, from the outermost to the cause, where `path` is the
    /// `.yarnrc.yml` that was read.
    pub fn messages(&self, path: &str) -> (r: Vec<String>)
        ensures
            r@.len() == 3,
            r@[0]@ == "resolving the npmAuthToken of registry "@ + self.registry@ + " in "@ + path@,
            r@[1]@ == IMPURE_ENV_HINT@,
            r@[2]@ == self.cause@,
    {
        let context = "resolving the npmAuthToken of registry ".to_owned().concat(
            self.registry.as_str(),
        ).concat(" in ").concat(path);
        let mut r: Vec<String> = Vec::new();
        r.push(context);
        r.push(IMPURE_ENV_HINT.to_owned());
        r.push(self.cause.clone());
        r
    }
}

impl View for RegistryTokens {
    type V = Seq<(Seq<char>, Seq<char>)>;

    closed spec fn view(&self) -> Seq<(Seq<char>, Seq<char>)> {
        text::pair_texts(self.entries@)
    }
}

impl Default for RegistryTokens {
    /// No tokens.
    fn default() -> (r: Self)
        ensures
            r@ == Seq::<(Seq<char>, Seq<char>)>::empty(),
    {
        let r = RegistryTokens { entries: Vec::new() };
        assert(r@ =~= Seq::<(Seq<char>, Seq<char>)>::empty());
        r
    }
}

impl RegistryTokens {
    /// The tokens of the given registries, which may be written in any form.
    pub fn from_tokens(pairs: Vec<(String, String)>) -> (r: Self)
        ensures
            is_ordering_of(r@, normalized_pairs(text::pair_texts(pairs@))),
    {
        let ghost want = normalized_pairs(text::pair_texts(pairs@));
        let mut keyed: Vec<(String, String)> = Vec::new();
        for pair in it: pairs
            invariant
                it.seq() == pairs@,
                want == normalized_pairs(text::pair_texts(pairs@)),
                text::pair_texts(keyed@) == want.take(it.index()),
        {
            let ghost before = keyed@;
            let ghost n = it.index();
            keyed.push((normalize_registry(pair.0.as_str()), pair.1));
            assert(text::pair_texts(keyed@) =~= text::pair_texts(before).push(want[n]));
            assert(want.take(n + 1) =~= want.take(n).push(want[n]));
        }
        assert(want.take(want.len() as int) =~= want);
        RegistryTokens { entries: order(keyed) }
    }

    /// The tokens of registries whose tokens have been expanded, or have failed to be. The first
    /// failure is the error.
    pub fn from_expansions(v: Vec<(String, Result<String, String>)>) -> (r: Result<
        Self,
        TokenError,
    >)
        ensures
            is_tokens_of(outcome_texts(v@), r),
            r is Ok <==> all_expanded(outcome_texts(v@), v@.len() as int),
    {
        let ghost texts = outcome_texts(v@);
        let ghost want = expanded_pairs(texts);
        let mut keyed: Vec<(String, String)> = Vec::new();
        for p in it: v
            invariant
                it.seq() == v@,
                texts == outcome_texts(v@),
                want == expanded_pairs(texts),
                all_expanded(texts, it.index()),
                text::pair_texts(keyed@) == want.take(it.index()),
        {
            let ghost before = keyed@;
            let ghost n = it.index();
            assert(texts[n] == (p.0@, outcome_text(p.1)));
            match p.1 {
                Ok(token) => {
                    keyed.push((normalize_registry(p.0.as_str()), token));
                    assert(text::pair_texts(keyed@) =~= text::pair_texts(before).push(want[n]));
                    assert(want.take(n + 1) =~= want.take(n).push(want[n]));
                },
                Err(cause) => {
                    let e = TokenError { registry: p.0, cause };
                    assert(texts[n] == (e.registry@, Err::<Seq<char>, Seq<char>>(e.cause@)));
                    return Err(e);
                },
            }
        }
        assert(want.take(want.len() as int) =~= want);
        Ok(RegistryTokens { entries: order(keyed) })
    }

    /// The tokens of the `npmRegistries` of a `.yarnrc.yml`, expanding the environment variables
    /// their values reference. `None` stands for a missing file, which yields no tokens. A token
    /// that reads a variable which is not set is an error.
    ///
    /// The environment holds the variables with their values, or with what is said of a value that
    /// cannot be read.
    pub fn load(
        npm_registries: Option<Vec<NpmRegistry>>,
        env: &Vec<(String, Result<String, String>)>,
    ) -> (r: Result<Self, TokenError>)
        ensures
            match npm_registries {
                None => r is Ok && r->Ok_0@ == Seq::<(Seq<char>, Seq<char>)>::empty(),
                Some(registries) => {
                    let known = with_token(registries@);
                    let variables = outcome_texts(env@);
                    let outcomes = expansions(known, variables);
                    &&& is_tokens_of(outcomes, r)
                    &&& r is Ok <==> all_expanded(outcomes, outcomes.len() as int)
                    &&& forall|i: int|
                        0 <= i < known.len() ==> expands_as(
                            known[i].1,
                            variables,
                            (#[trigger] outcomes[i]).1,
                        )
                },
            },
    {
        let registries = match npm_registries {
            None => {
                return Ok(RegistryTokens::default());
            },
            Some(registries) => registries,
        };
        let ghost variables = outcome_texts(env@);
        let mut v: Vec<(String, Result<String, String>)> = Vec::new();
        proof {
            assert(registries@.take(0) =~= seq![]);
            assert(outcome_texts(v@) =~= expansions(with_token(registries@.take(0)), variables));
        }
        for entry in it: registries
            invariant
                it.seq() == registries@,
                variables == outcome_texts(env@),
                outcome_texts(v@) == expansions(
                    with_token(registries@.take(it.index() as int)),
                    variables,
                ),
                forall|i: int|
                    0 <= i < v@.len() ==> expands_as(
                        with_token(registries@.take(it.index() as int))[i].1,
                        variables,
                        (#[trigger] outcome_texts(v@)[i]).1,
                    ),
        {
            let ghost n = it.index() as int;
            let ghost before = v@;
            let ghost known = with_token(registries@.take(n));
            proof {
                assert(registries@.take(n + 1).drop_last() =~= registries@.take(n));
                assert(registries@.take(n + 1).last() == entry);
                assert(outcome_texts(before).len() == before.len());
                assert(expansions(known, variables).len() == known.len());
            }
            match entry.npm_auth_token {
                Some(token) => {
                    let expanded = shell_expand(token.as_str(), env);
                    v.push((entry.registry, expanded));
                    proof {
                        let all = with_token(registries@.take(n + 1));
                        assert(all == known.push((entry.registry@, token@)));
                        assert(outcome_texts(v@) =~= outcome_texts(before).push(
                            (entry.registry@, outcome_text(expanded)),
                        ));
                        assert(expansions(all, variables) =~= expansions(known, variables).push(
                            (entry.registry@, shell_expanded(token@, variables)),
                        ));
                        assert forall|i: int| 0 <= i < v@.len() implies expands_as(
                            all[i].1,
                            variables,
                            (#[trigger] outcome_texts(v@)[i]).1,
                        ) by {
                            if i < before.len() {
                                assert(outcome_texts(before)[i] == outcome_texts(v@)[i]);
                            }
                        }
                    }
                },
                None => {},
            }
        }
        assert(registries@.take(registries@.len() as int) =~= registries@);
        assert(outcome_texts(v@).len() == v@.len());
        RegistryTokens::from_expansions(v)
    }

    /// Returns the token to authenticate a request for `url` with, if any registry in the
    /// `.yarnrc.yml` covers it.
    pub fn for_url(&self, url: &str) -> (r: Option<&str>)
        ensures
            text::opt_str(r) == first_token(self@, normalized(url@)),
    {
        let key = normalize_registry(url);
        let ghost all = self@;
        let mut i: usize = 0;
        assert(all.skip(0) =~= all);
        while i < self.entries.len()
            invariant
                all == text::pair_texts(self.entries@),
                i <= self.entries.len(),
                first_token(all, key@) == first_token(all.skip(i as int), key@),
                key@ == normalized(url@),
                all == self@,
            decreases self.entries.len() - i,
        {
            proof {
                assert(all.skip(i as int).drop_first() =~= all.skip(i + 1));
                assert(all.skip(i as int)[0] == all[i as int]);
            }
            let registry = self.entries[i].0.as_str();
            if is_covered(registry, key.as_str()) {
                return Some(self.entries[i].1.as_str());
            }
            i += 1;
        }
        None
    }
}

/// Whether the normalized `url` is the normalized `registry` or under it.
fn is_covered(registry: &str, url: &str) -> (r: bool)
    ensures
        r == covers(registry@, url@),
{
    if !text::starts_with(url, registry) {
        return false;
    }
    let n = registry.unicode_len();
    url.unicode_len() == n || url.get_char(n) == '/'
}

/// Whether the entries stand in the order in which they are asked.
pub open spec fn in_order(entries: Seq<(Seq<char>, Seq<char>)>) -> bool {
    forall|i: int, j: int|
        #![trigger entries[i], entries[j]]
        0 <= i < j < entries.len() ==> precedes(entries[i].0, entries[j].0) || entries[i].0
            == entries[j].0
}

/// A token that refers to no variable is used as it is: if none of the tokens does, they are loaded
/// as they were written.
pub proof fn law_plain_tokens_are_kept(
    registries: Seq<(Seq<char>, Seq<char>)>,
    env: Seq<(Seq<char>, Result<Seq<char>, Seq<char>>)>,
    outcomes: Seq<(Seq<char>, Result<Seq<char>, Seq<char>>)>,
)
    requires
        outcomes == expansions(registries, env),
        forall|i: int|
            0 <= i < registries.len() ==> expands_as(
                registries[i].1,
                env,
                (#[trigger] outcomes[i]).1,
            ),
        forall|i: int| 0 <= i < registries.len() ==> !(#[trigger] registries[i]).1.contains('$'),
    ensures
        all_expanded(outcomes, outcomes.len() as int),
        expanded_pairs(outcomes) == normalized_pairs(registries),
{
    assert forall|i: int| 0 <= i < outcomes.len() implies (#[trigger] outcomes[i]).1 == Ok::<
        Seq<char>,
        Seq<char>,
    >(registries[i].1) by {
        assert(!registries[i].1.contains('$'));
    }
    assert(expanded_pairs(outcomes) =~= normalized_pairs(registries));
}

/// Tokens that were put in order are in order.
pub proof fn law_loaded_tokens_are_in_order(
    tokens: Seq<(Seq<char>, Seq<char>)>,
    pairs: Seq<(Seq<char>, Seq<char>)>,
)
    requires
        is_ordering_of(tokens, pairs),
    ensures
        in_order(tokens),
        tokens.len() == pairs.len(),
{
}

/// Putting pairs in order has one outcome.
pub proof fn law_one_ordering(
    one: Seq<(Seq<char>, Seq<char>)>,
    other: Seq<(Seq<char>, Seq<char>)>,
    pairs: Seq<(Seq<char>, Seq<char>)>,
)
    requires
        is_ordering_of(one, pairs),
        is_ordering_of(other, pairs),
    ensures
        one == other,
{
    let f = choose|f: Seq<int>| put_in_order(one, pairs, f);
    let g = choose|g: Seq<int>| put_in_order(other, pairs, g);
    let leq = |a: int, b: int|
        precedes(pairs[a].0, pairs[b].0) || (pairs[a].0 == pairs[b].0 && a <= b);
    assert(vstd::relations::total_ordering(leq)) by {
        assert forall|a: int, b: int| #[trigger] leq(a, b) || leq(b, a) by {
            lemma_precedes(pairs[a].0, pairs[b].0, pairs[b].0);
        }
        assert forall|a: int, b: int| #[trigger] leq(a, b) && #[trigger] leq(b, a) implies a
            == b by {
            lemma_precedes(pairs[a].0, pairs[b].0, pairs[b].0);
        }
        assert forall|a: int, b: int, c: int| #[trigger]
            leq(a, b) && #[trigger] leq(b, c) implies leq(a, c) by {
            lemma_precedes(pairs[a].0, pairs[b].0, pairs[c].0);
        }
    }
    lemma_all_indices(one, pairs, f, leq);
    lemma_all_indices(other, pairs, g, leq);
    vstd::seq_lib::lemma_sorted_unique(f, g, leq);
    assert(one =~= other);
}

proof fn lemma_all_indices(
    out: Seq<(Seq<char>, Seq<char>)>,
    pairs: Seq<(Seq<char>, Seq<char>)>,
    from: Seq<int>,
    leq: spec_fn(int, int) -> bool,
)
    requires
        put_in_order(out, pairs, from),
        leq == (|a: int, b: int|
            precedes(pairs[a].0, pairs[b].0) || (pairs[a].0 == pairs[b].0 && a <= b)),
    ensures
        vstd::relations::sorted_by(from, leq),
        from.to_multiset() == Seq::new(pairs.len(), |i: int| i).to_multiset(),
{
    let n = pairs.len() as int;
    let all = Seq::new(pairs.len(), |i: int| i);
    assert forall|i: int, j: int| 0 <= i < j < from.len() implies #[trigger] leq(
        from[i],
        from[j],
    ) by {
        assert(out[i] == pairs[from[i]] && out[j] == pairs[from[j]]);
    }
    assert forall|i: int, j: int| 0 <= i < j < from.len() implies from[i] != from[j] by {
        assert(out[i] == pairs[from[i]] && out[j] == pairs[from[j]]);
        lemma_precedes(out[i].0, out[j].0, out[j].0);
    }
    assert(from.no_duplicates());
    assert(all.no_duplicates());
    from.unique_seq_to_set();
    all.unique_seq_to_set();
    assert(from.to_set().subset_of(all.to_set())) by {
        assert forall|x: int| from.to_set().contains(x) implies all.to_set().contains(x) by {
            let i = choose|i: int| 0 <= i < from.len() && from[i] == x;
            assert(0 <= from[i] < n);
            assert(all[x] == x);
        }
    }
    vstd::set_lib::lemma_subset_equality(from.to_set(), all.to_set());
    from.lemma_multiset_has_no_duplicates();
    all.lemma_multiset_has_no_duplicates();
    broadcast use vstd::seq_lib::group_to_multiset_ensures;

    assert forall|x: int| from.to_multiset().count(x) == all.to_multiset().count(x) by {
        assert(from.contains(x) <==> from.to_set().contains(x));
        assert(all.contains(x) <==> all.to_set().contains(x));
    }
    assert(from.to_multiset() =~= all.to_multiset());
}

/// Of pairs that were put in order none is lost.
pub proof fn lemma_every_pair_is_there(
    out: Seq<(Seq<char>, Seq<char>)>,
    pairs: Seq<(Seq<char>, Seq<char>)>,
    i: int,
)
    requires
        is_ordering_of(out, pairs),
        0 <= i < pairs.len(),
    ensures
        exists|at: int| 0 <= at < out.len() && #[trigger] out[at] == pairs[i],
{
    let from = choose|from: Seq<int>| put_in_order(out, pairs, from);
    let leq = |a: int, b: int|
        precedes(pairs[a].0, pairs[b].0) || (pairs[a].0 == pairs[b].0 && a <= b);
    lemma_all_indices(out, pairs, from, leq);
    let all = Seq::new(pairs.len(), |k: int| k);
    broadcast use vstd::seq_lib::group_to_multiset_ensures;

    assert(all[i] == i);
    assert(all.contains(i));
    assert(all.to_multiset().count(i) > 0);
    assert(from.to_multiset().count(i) > 0);
    assert(from.contains(i));
    let at = choose|at: int| 0 <= at < from.len() && from[at] == i;
    assert(out[at] == pairs[from[at]]);
}

/// The registry with the longest matching path decides: of tokens that are in order, the one that
/// is used is that of a registry which covers the URL, and no registry that covers it is longer.
pub proof fn law_longest_registry_wins(entries: Seq<(Seq<char>, Seq<char>)>, url: Seq<char>)
    requires
        in_order(entries),
    ensures
        match first_token(entries, url) {
            Some(token) => exists|i: int|
                {
                    &&& 0 <= i < entries.len()
                    &&& (#[trigger] entries[i]).1 == token
                    &&& covers(entries[i].0, url)
                    &&& forall|j: int|
                        0 <= j < entries.len() && covers((#[trigger] entries[j]).0, url)
                            ==> text::byte_len(entries[j].0) <= text::byte_len(entries[i].0)
                },
            None => forall|j: int|
                0 <= j < entries.len() ==> !covers((#[trigger] entries[j]).0, url),
        },
    decreases entries.len(),
{
    if entries.len() > 0 {
        if covers(entries[0].0, url) {
            assert(entries[0].1 == first_token(entries, url)->Some_0);
        } else {
            let rest = entries.drop_first();
            assert forall|i: int, j: int|
                #![trigger rest[i], rest[j]]
                0 <= i < j < rest.len() implies precedes(rest[i].0, rest[j].0) || rest[i].0
                == rest[j].0 by {
                assert(rest[i] == entries[i + 1] && rest[j] == entries[j + 1]);
            }
            law_longest_registry_wins(rest, url);
            assert forall|j: int| 0 < j < entries.len() implies #[trigger] entries[j] == rest[j
                - 1] by {}
            match first_token(rest, url) {
                Some(token) => {
                    let i = choose|i: int|
                        {
                            &&& 0 <= i < rest.len()
                            &&& (#[trigger] rest[i]).1 == token
                            &&& covers(rest[i].0, url)
                            &&& forall|j: int|
                                0 <= j < rest.len() && covers((#[trigger] rest[j]).0, url)
                                    ==> text::byte_len(rest[j].0) <= text::byte_len(rest[i].0)
                        };
                    assert(entries[i + 1].1 == token);
                },
                None => {},
            }
        }
    }
}

/// The scheme of a URL has no part in which token it is given.
pub proof fn law_scheme_does_not_decide(one: Seq<char>, other: Seq<char>, rest: Seq<char>)
    requires
        !text::occurs_in(one + ":/"@, "://"@),
        !text::occurs_in(other + ":/"@, "://"@),
    ensures
        normalized(one + "://"@ + rest) == normalized(other + "://"@ + rest),
{
    lemma_scheme(one, rest);
    lemma_scheme(other, rest);
}

/// The first `://` is what ends the scheme.
proof fn lemma_scheme(scheme: Seq<char>, rest: Seq<char>)
    requires
        !text::occurs_in(scheme + ":/"@, "://"@),
    ensures
        without_scheme(scheme + "://"@ + rest) == rest,
{
    reveal_strlit("://");
    reveal_strlit(":/");
    let s = scheme + "://"@ + rest;
    let head = scheme + ":/"@;
    let i = scheme.len() as int;
    assert(text::occurs_at(s, "://"@, i));
    assert forall|j: int| 0 <= j < i implies !#[trigger] text::occurs_at(s, "://"@, j) by {
        if text::occurs_at(s, "://"@, j) {
            assert forall|k: int| 0 <= k < 3 implies head[j + k] == #[trigger] "://"@[k] by {
                assert(s[j + k] == head[j + k]);
            }
            assert(text::occurs_at(head, "://"@, j));
        }
    }
    text::lemma_split_first(s, "://"@, i);
    assert(s.skip(i + 3) =~= rest);
}

/// A slash at the end of a registry or a URL has no part in the match, unless it completes a
/// `://`.
pub proof fn law_trailing_slash_is_ignored(s: Seq<char>)
    requires
        !text::has_suffix(s, ":/"@) || text::occurs_in(s, "://"@),
    ensures
        normalized(s + seq!['/']) == normalized(s),
{
    reveal_strlit("://");
    reveal_strlit(":/");
    let longer = s + seq!['/'];
    let n = s.len() as int;
    assert forall|j: int| j + 3 <= n implies text::occurs_at(longer, "://"@, j)
        == #[trigger] text::occurs_at(s, "://"@, j) by {
        if 0 <= j {
            if text::occurs_at(longer, "://"@, j) {
                assert forall|k: int| 0 <= k < 3 implies s[j + k] == #[trigger] "://"@[k] by {
                    assert(longer[j + k] == s[j + k]);
                }
            }
            if text::occurs_at(s, "://"@, j) {
                assert forall|k: int| 0 <= k < 3 implies longer[j + k] == #[trigger] "://"@[k] by {
                    assert(longer[j + k] == s[j + k]);
                }
            }
        }
    }
    if text::occurs_in(s, "://"@) {
        let at = choose|i: int| text::occurs_at(s, "://"@, i);
        let i = text::lemma_first_exists(s, "://"@, at);
        assert(text::occurs_at(longer, "://"@, i));
        assert forall|j: int| 0 <= j < i implies !#[trigger] text::occurs_at(
            longer,
            "://"@,
            j,
        ) by {
            assert(!text::occurs_at(s, "://"@, j));
        }
        text::lemma_split_first(s, "://"@, i);
        text::lemma_split_first(longer, "://"@, i);
        assert(longer.skip(i + 3) =~= s.skip(i + 3) + seq!['/']);
    } else {
        assert forall|j: int| !#[trigger] text::occurs_at(longer, "://"@, j) by {
            if text::occurs_at(longer, "://"@, j) {
                if j + 3 <= n {
                    assert(text::occurs_at(s, "://"@, j));
                } else {
                    assert(j == n - 2);
                    assert(longer[j + 0] == "://"@[0]);
                    assert(longer[j + 1] == "://"@[1]);
                    assert(s[n - 2] == ':' && s[n - 1] == '/');
                    assert(text::has_suffix(s, ":/"@));
                }
            }
        }
    }
    lemma_trim_slash(without_scheme(s));
}

proof fn lemma_trim_slash(w: Seq<char>)
    ensures
        text::trimmed_end(text::trimmed_start(w + seq!['/'], '/'), '/') == text::trimmed_end(
            text::trimmed_start(w, '/'),
            '/',
        ),
    decreases w.len(),
{
    let longer = w + seq!['/'];
    if w.len() == 0 {
        assert(longer.drop_first() =~= Seq::<char>::empty());
        assert(w =~= Seq::<char>::empty());
        assert(text::trimmed_start(longer, '/') == text::trimmed_start(longer.drop_first(), '/'));
    } else if w[0] == '/' {
        assert(longer.drop_first() =~= w.drop_first() + seq!['/']);
        lemma_trim_slash(w.drop_first());
    } else {
        assert(longer[0] == w[0]);
        assert(longer.drop_last() =~= w);
    }
}

/// Whether a `://` stands in the text.
pub open spec fn has_mark(s: Seq<char>) -> bool {
    exists|i: int|
        0 <= i && i + 2 < s.len() && #[trigger] s[i] == ':' && s[i + 1] == '/' && s[i + 2] == '/'
}

/// A registry or a URL is known by all that stands behind its scheme, but for the slashes around it:
/// nothing else is lost.
pub proof fn law_host_and_path_are_kept(
    scheme: Seq<char>,
    lead: Seq<char>,
    place: Seq<char>,
    trail: Seq<char>,
)
    requires
        !scheme.contains(':'),
        forall|i: int| 0 <= i < lead.len() ==> #[trigger] lead[i] == '/',
        forall|i: int| 0 <= i < trail.len() ==> #[trigger] trail[i] == '/',
        place.len() > 0 ==> place[0] != '/' && place.last() != '/',
    ensures
        normalized(scheme + "://"@ + (lead + place + trail)) == place,
        !has_mark(lead + place + trail) ==> normalized(lead + place + trail) == place,
        !has_mark(place) ==> normalized(place) == place && normalized("//"@ + place) == place,
{
    reveal_strlit("://");
    reveal_strlit(":/");
    reveal_strlit("//");
    let s = lead + place + trail;
    let head = scheme + ":/"@;
    assert forall|j: int| !#[trigger] text::occurs_at(head, "://"@, j) by {
        if text::occurs_at(head, "://"@, j) {
            assert(head[j + 0] == "://"@[0]);
            assert(scheme[j] == ':');
        }
    }
    lemma_scheme(scheme, s);
    lemma_trimmed(lead, place, trail);
    lemma_no_mark(s);
    lemma_no_mark(place);
    let none = Seq::<char>::empty();
    lemma_trimmed(none, place, none);
    assert(none + place + none =~= place);
    let relative = "//"@ + place;
    lemma_trimmed("//"@, place, none);
    assert(relative + none =~= relative);
    if !has_mark(place) {
        assert(!has_mark(relative)) by {
            if has_mark(relative) {
                let i = choose|i: int|
                    0 <= i && i + 2 < relative.len() && #[trigger] relative[i] == ':' && relative[i
                        + 1] == '/' && relative[i + 2] == '/';
                assert(i >= 2);
                assert(place[i - 2] == ':' && place[i - 1] == '/' && place[i] == '/');
            }
        }
        lemma_no_mark(relative);
    }
}

/// Without a `://` there is no scheme to be dropped.
proof fn lemma_no_mark(s: Seq<char>)
    ensures
        !has_mark(s) ==> without_scheme(s) == s,
{
    reveal_strlit("://");
    if !has_mark(s) {
        assert forall|j: int| !#[trigger] text::occurs_at(s, "://"@, j) by {
            if text::occurs_at(s, "://"@, j) {
                assert(s[j + 0] == "://"@[0]);
                assert(s[j + 1] == "://"@[1]);
                assert(s[j + 2] == "://"@[2]);
                assert(has_mark(s));
            }
        }
    }
}

/// The slashes around a text are dropped, and no others.
proof fn lemma_trimmed(lead: Seq<char>, place: Seq<char>, trail: Seq<char>)
    requires
        forall|i: int| 0 <= i < lead.len() ==> #[trigger] lead[i] == '/',
        forall|i: int| 0 <= i < trail.len() ==> #[trigger] trail[i] == '/',
        place.len() > 0 ==> place[0] != '/' && place.last() != '/',
    ensures
        text::trimmed_end(text::trimmed_start(lead + place + trail, '/'), '/') == place,
    decreases lead.len() + trail.len(),
{
    let s = lead + place + trail;
    if lead.len() > 0 {
        let fewer = lead.drop_first();
        assert(s[0] == lead[0]);
        assert(s.drop_first() =~= fewer + place + trail);
        lemma_trimmed(fewer, place, trail);
    } else if place.len() == 0 && trail.len() > 0 {
        let fewer = trail.drop_first();
        assert(s[0] == trail[0]);
        assert(s.drop_first() =~= lead + place + fewer);
        lemma_trimmed(lead, place, fewer);
    } else if place.len() == 0 {
        assert(s =~= place);
    } else {
        assert(s[0] == place[0]);
        lemma_trimmed_end(place, trail);
        assert(s =~= place + trail);
    }
}

proof fn lemma_trimmed_end(place: Seq<char>, trail: Seq<char>)
    requires
        forall|i: int| 0 <= i < trail.len() ==> #[trigger] trail[i] == '/',
        place.len() > 0,
        place.last() != '/',
    ensures
        text::trimmed_end(place + trail, '/') == place,
    decreases trail.len(),
{
    let s = place + trail;
    if trail.len() > 0 {
        let fewer = trail.drop_last();
        assert(s.last() == trail[trail.len() - 1]);
        assert(s.drop_last() =~= place + fewer);
        lemma_trimmed_end(place, fewer);
    } else {
        assert(s =~= place);
    }
}

/// A registry covers itself and what is below it, behind a slash, and nothing else.
pub proof fn law_registries_cover_what_is_below(registry: Seq<char>, url: Seq<char>)
    ensures
        covers(registry, url) <==> url == registry || exists|below: Seq<char>|
            url == #[trigger] (registry + seq!['/'] + below),
{
    let n = registry.len() as int;
    if covers(registry, url) {
        assert forall|i: int| 0 <= i < n implies url[i] == registry[i] by {
            assert(url[0 + i] == registry[i]);
        }
        if url.len() == n {
            assert(url =~= registry);
        } else {
            let below = url.skip(n + 1);
            assert(url =~= registry + seq!['/'] + below);
        }
    }
    if url == registry {
        assert(text::has_prefix(url, registry));
    }
    assert forall|below: Seq<char>| url == #[trigger] (registry + seq!['/']
        + below) implies covers(registry, url) by {
        assert forall|i: int| 0 <= i < n implies url[0 + i] == #[trigger] registry[i] by {}
        assert(url[n] == '/');
    }
}

/// The token of a registry goes to the requests below it, however the two are written, unless a
/// registry that is longer has a token too. To a place that is neither the registry nor below it the
/// token does not go.
pub proof fn law_tokens_go_below_their_registries(
    known: Seq<(Seq<char>, Seq<char>)>,
    tokens: Seq<(Seq<char>, Seq<char>)>,
    url: Seq<char>,
    i: int,
)
    requires
        is_ordering_of(tokens, normalized_pairs(known)),
        0 <= i < known.len(),
        covers(normalized(known[i].0), normalized(url)),
        forall|j: int|
            0 <= j < known.len() && j != i && covers(
                normalized((#[trigger] known[j]).0),
                normalized(url),
            ) ==> normalized(known[j].0).len() < normalized(known[i].0).len() || (normalized(
                known[j].0,
            ) == normalized(known[i].0) && i < j),
    ensures
        first_token(tokens, normalized(url)) == Some(known[i].1),
{
    let pairs = normalized_pairs(known);
    let to = normalized(url);
    let from = choose|from: Seq<int>| put_in_order(tokens, pairs, from);
    lemma_every_pair_is_there(tokens, pairs, i);
    let leq = |a: int, b: int|
        precedes(pairs[a].0, pairs[b].0) || (pairs[a].0 == pairs[b].0 && a <= b);
    lemma_all_indices(tokens, pairs, from, leq);
    let all = Seq::new(pairs.len(), |k: int| k);
    broadcast use vstd::seq_lib::group_to_multiset_ensures;

    assert(all[i] == i);
    assert(all.contains(i));
    assert(from.to_multiset().count(i) > 0);
    assert(from.contains(i));
    let at = choose|at: int| 0 <= at < from.len() && from[at] == i;
    assert(tokens[at] == pairs[i]);
    assert forall|b: int| 0 <= b < at implies !covers((#[trigger] tokens[b]).0, to) by {
        if covers(tokens[b].0, to) {
            let j = from[b];
            assert(tokens[b] == pairs[j]);
            assert(precedes(tokens[b].0, tokens[at].0) || (tokens[b].0 == tokens[at].0 && j < i));
            lemma_precedes(tokens[b].0, tokens[at].0, tokens[at].0);
            if j != i {
                assert(covers(normalized(known[j].0), to));
                let one = normalized(known[j].0);
                let other = normalized(known[i].0);
                if one.len() < other.len() {
                    assert forall|k: int| 0 <= k < one.len() implies one[k] == other[k] by {
                        assert(to[0 + k] == one[k]);
                        assert(to[0 + k] == other[k]);
                    }
                    assert(one =~= other.take(one.len() as int));
                    text::lemma_offset_order(other, one.len() as int, other.len() as int);
                    assert(other.take(other.len() as int) =~= other);
                }
            }
        }
    }
    lemma_first_token(tokens, to, at);
}

proof fn lemma_first_token(entries: Seq<(Seq<char>, Seq<char>)>, url: Seq<char>, at: int)
    requires
        0 <= at < entries.len(),
        covers(entries[at].0, url),
        forall|b: int| 0 <= b < at ==> !covers((#[trigger] entries[b]).0, url),
    ensures
        first_token(entries, url) == Some(entries[at].1),
    decreases at,
{
    if at > 0 {
        let rest = entries.drop_first();
        assert(!covers(entries[0].0, url));
        assert(rest[at - 1] == entries[at]);
        assert forall|b: int| 0 <= b < at - 1 implies !covers((#[trigger] rest[b]).0, url) by {
            assert(rest[b] == entries[b + 1]);
        }
        lemma_first_token(rest, url, at - 1);
    }
}

/// A token is the one of a registry that is named in the configuration and that covers the request.
/// If none does there is none.
pub proof fn law_no_other_token_is_sent(
    known: Seq<(Seq<char>, Seq<char>)>,
    tokens: Seq<(Seq<char>, Seq<char>)>,
    url: Seq<char>,
)
    requires
        is_ordering_of(tokens, normalized_pairs(known)),
    ensures
        match first_token(tokens, normalized(url)) {
            Some(token) => exists|i: int|
                0 <= i < known.len() && (#[trigger] known[i]).1 == token && covers(
                    normalized(known[i].0),
                    normalized(url),
                ),
            None => forall|i: int|
                0 <= i < known.len() ==> !covers(
                    normalized((#[trigger] known[i]).0),
                    normalized(url),
                ),
        },
{
    let pairs = normalized_pairs(known);
    let to = normalized(url);
    let from = choose|from: Seq<int>| put_in_order(tokens, pairs, from);
    law_longest_registry_wins(tokens, to);
    match first_token(tokens, to) {
        Some(token) => {
            let k = choose|k: int|
                {
                    &&& 0 <= k < tokens.len()
                    &&& (#[trigger] tokens[k]).1 == token
                    &&& covers(tokens[k].0, to)
                    &&& forall|j: int|
                        0 <= j < tokens.len() && covers((#[trigger] tokens[j]).0, to)
                            ==> text::byte_len(tokens[j].0) <= text::byte_len(tokens[k].0)
                };
            assert(0 <= from[k] < pairs.len());
            assert(tokens[k] == pairs[from[k]]);
            assert(known[from[k]].1 == token);
        },
        None => {
            assert forall|i: int| 0 <= i < known.len() implies !covers(
                normalized((#[trigger] known[i]).0),
                to,
            ) by {
                lemma_every_pair_is_there(tokens, pairs, i);
                let at = choose|at: int| 0 <= at < tokens.len() && #[trigger] tokens[at] == pairs[i];
                assert(!covers(tokens[at].0, to));
            }
        },
    }
}

/// Whether a registry of a configuration has a token.
pub open spec fn has_token(v: Seq<NpmRegistry>, k: int) -> bool {
    v[k].npm_auth_token is Some
}

/// The registries that have a token keep their keys and their tokens as they are written, and their
/// order; those without one are left out.
pub proof fn law_registries_keep_their_tokens(v: Seq<NpmRegistry>) -> (at: Seq<int>)
    ensures
        text::lists(at, v.len() as int, |k: int| has_token(v, k)),
        with_token(v).len() == at.len(),
        forall|a: int|
            0 <= a < at.len() ==> (#[trigger] with_token(v)[a]).0 == v[at[a]].registry@
                && with_token(v)[a].1 == v[at[a]].npm_auth_token->Some_0@,
{
    let at = lemma_with_token(v, v.len() as int);
    assert(v.take(v.len() as int) =~= v);
    at
}

proof fn lemma_with_token(v: Seq<NpmRegistry>, n: int) -> (at: Seq<int>)
    requires
        0 <= n <= v.len(),
    ensures
        text::lists(at, n, |k: int| has_token(v, k)),
        with_token(v.take(n)).len() == at.len(),
        forall|a: int|
            0 <= a < at.len() ==> (#[trigger] with_token(v.take(n))[a]).0 == v[at[a]].registry@
                && with_token(v.take(n))[a].1 == v[at[a]].npm_auth_token->Some_0@,
    decreases n,
{
    let wanted = |k: int| has_token(v, k);
    if n == 0 {
        Seq::empty()
    } else {
        let before = lemma_with_token(v, n - 1);
        text::lemma_lists_next(before, n - 1, wanted);
        assert(v.take(n).drop_last() =~= v.take(n - 1));
        assert(v.take(n).last() == v[n - 1]);
        if wanted(n - 1) {
            before.push(n - 1)
        } else {
            before
        }
    }
}

/// The value of a variable is the first that the environment has under its name; a variable that is
/// not there is not set.
pub proof fn law_variables_are_looked_up_by_name(
    env: Seq<(Seq<char>, Result<Seq<char>, Seq<char>>)>,
    name: Seq<char>,
    i: int,
)
    ensures
        0 <= i < env.len() && env[i].0 == name && (forall|j: int|
            0 <= j < i ==> (#[trigger] env[j]).0 != name) ==> value_in(env, name) == env[i].1,
        (forall|j: int| 0 <= j < env.len() ==> (#[trigger] env[j]).0 != name) ==> value_in(env, name)
            == Err::<Seq<char>, Seq<char>>("environment variable not found"@),
    decreases env.len(),
{
    if env.len() > 0 {
        let rest = env.drop_first();
        law_variables_are_looked_up_by_name(rest, name, i - 1);
        assert forall|j: int| 0 <= j < rest.len() implies #[trigger] rest[j] == env[j + 1] by {}
        if 0 < i < env.len() && env[i].0 == name && (forall|j: int|
            0 <= j < i ==> (#[trigger] env[j]).0 != name) {
            assert(env[0].0 != name);
            assert(rest[i - 1] == env[i]);
            assert forall|j: int| 0 <= j < i - 1 implies (#[trigger] rest[j]).0 != name by {
                assert(rest[j] == env[j + 1]);
            }
        }
        if forall|j: int| 0 <= j < env.len() ==> (#[trigger] env[j]).0 != name {
            assert(env[0].0 != name);
            assert forall|j: int| 0 <= j < rest.len() implies (#[trigger] rest[j]).0 != name by {
                assert(rest[j] == env[j + 1]);
            }
        }
    }
}

/// Of the tokens that could not be expanded the first is reported, with its registry and its reason.
/// If all were expanded, each is there with its registry.
pub proof fn law_first_failure_is_reported(
    v: Seq<(Seq<char>, Result<Seq<char>, Seq<char>>)>,
    r: Result<RegistryTokens, TokenError>,
    i: int,
)
    requires
        is_tokens_of(v, r),
        0 <= i < v.len(),
        forall|j: int| 0 <= j < i ==> (#[trigger] v[j]).1 is Ok,
    ensures
        v[i].1 is Err ==> r is Err && r->Err_0.registry@ == v[i].0 && v[i].1->Err_0
            == r->Err_0.cause@,
        r is Ok ==> r->Ok_0@.len() == v.len() && v[i].1 is Ok && exists|at: int|
            0 <= at < r->Ok_0@.len() && #[trigger] r->Ok_0@[at] == (
                normalized(v[i].0),
                v[i].1->Ok_0,
            ),
{
    match r {
        Ok(tokens) => {
            let pairs = expanded_pairs(v);
            assert(v[i].1 is Ok);
            lemma_every_pair_is_there(tokens@, pairs, i);
            assert(pairs[i] == (normalized(v[i].0), v[i].1->Ok_0));
        },
        Err(e) => {
            let k = choose|k: int|
                {
                    &&& 0 <= k < v.len()
                    &&& all_expanded(v, k)
                    &&& #[trigger] v[k] == (e.registry@, Err::<Seq<char>, Seq<char>>(e.cause@))
                };
            if v[i].1 is Err {
                if k < i {
                    assert(v[k].1 is Ok);
                } else if i < k {
                    assert(v[i].1 is Ok);
                }
            }
        },
    }
}

/// What becomes of a token depends on the token and the environment, and goes to the registry that the
/// token was written for.
pub proof fn law_tokens_stay_with_their_registries(
    registries: Seq<(Seq<char>, Seq<char>)>,
    env: Seq<(Seq<char>, Result<Seq<char>, Seq<char>>)>,
    i: int,
)
    requires
        0 <= i < registries.len(),
    ensures
        expansions(registries, env).len() == registries.len(),
        expansions(registries, env)[i].0 == registries[i].0,
        expansions(registries, env)[i].1 == shell_expanded(registries[i].1, env),
{
}

} // verus!
