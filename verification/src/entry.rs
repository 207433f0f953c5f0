//! The entries of a lockfile, and what their resolutions say.
//!
//! A resolution reads `name@protocol:source#selector::bindings`, where the source and its `#`,
//! and the bindings and their `::`, may be missing. The name may begin with a scope, as in
//! `@scope/name`.

use crate::text;
use vstd::prelude::*;
use vstd::string::*;
use vstd::utf8::*;

verus! {

/// What the fetcher reads of a lockfile entry.
#[derive(Debug)]
pub struct Entry {
    /// The name in the entry's first descriptor.
    pub name: String,
    /// The entry's resolution, with the name.
    pub resolved: String,
    /// The entry's checksum, empty if it has none.
    pub integrity: String,
}

/// The pairs that `form_urlencoded::parse` finds in a byte string.
pub uninterp spec fn form_pairs(bytes: Seq<u8>) -> Seq<(Seq<char>, Seq<char>)>;

/// Whether `semver::Version::parse` takes the text for a version.
pub uninterp spec fn is_version(text: Seq<char>) -> bool;

/// The name and the rest of a resolution: what stands before and after the first `@` that does
/// not begin the text.
pub open spec fn ident_split(r: Seq<char>) -> Option<(Seq<char>, Seq<char>)> {
    if text::has_prefix(r, "@"@) {
        match text::split_first(r.skip(1), "@"@) {
            Some((name, rest)) => Some(("@"@ + name, rest)),
            None => None,
        }
    } else {
        text::split_first(r, "@"@)
    }
}

/// Whether the text has a name and something that it resolves to.
pub open spec fn has_name(r: Seq<char>) -> bool {
    ident_split(r) is Some
}

/// The name, with its scope.
pub open spec fn name_of(r: Seq<char>) -> Seq<char> {
    ident_split(r)->Some_0.0
}

/// What the name resolves to.
pub open spec fn resolution_of(r: Seq<char>) -> Seq<char> {
    ident_split(r)->Some_0.1
}

/// The scope with its `@`.
pub open spec fn scope_of(r: Seq<char>) -> Option<Seq<char>> {
    match text::split_first(name_of(r), "/"@) {
        Some((scope, _)) => Some(scope),
        None => None,
    }
}

/// The name without its scope.
pub open spec fn name_rest_of(r: Seq<char>) -> Seq<char> {
    match text::split_first(name_of(r), "/"@) {
        Some((_, rest)) => rest,
        None => name_of(r),
    }
}

/// Whether the scope, if there is one, begins with an `@`.
pub open spec fn has_sound_scope(r: Seq<char>) -> bool {
    scope_of(r) matches Some(scope) ==> text::has_prefix(scope, "@"@)
}

/// The scope without its `@`.
pub open spec fn scope_name_of(r: Seq<char>) -> Option<Seq<char>> {
    match scope_of(r) {
        Some(scope) => Some(scope.skip(1)),
        None => None,
    }
}

/// Whether the text has a name and a protocol.
pub open spec fn is_locator(r: Seq<char>) -> bool {
    has_name(r) && text::occurs_in(resolution_of(r), ":"@)
}

/// The protocol.
pub open spec fn protocol_of(r: Seq<char>) -> Seq<char> {
    text::split_first(resolution_of(r), ":"@)->Some_0.0
}

/// What stands behind the protocol.
pub open spec fn reference_of(r: Seq<char>) -> Seq<char> {
    text::split_first(resolution_of(r), ":"@)->Some_0.1
}

/// The text of the bindings.
pub open spec fn bindings_of(r: Seq<char>) -> Option<Seq<char>> {
    match text::split_last(reference_of(r), "::"@) {
        Some((_, bindings)) => Some(bindings),
        None => None,
    }
}

/// The source and the selector, without the bindings.
pub open spec fn source_and_selector_of(r: Seq<char>) -> Seq<char> {
    match text::split_last(reference_of(r), "::"@) {
        Some((before, _)) => before,
        None => reference_of(r),
    }
}

/// The selector.
pub open spec fn selector_of(r: Seq<char>) -> Seq<char> {
    match text::split_first(source_and_selector_of(r), "#"@) {
        Some((_, selector)) => selector,
        None => source_and_selector_of(r),
    }
}

/// The source.
pub open spec fn source_of(r: Seq<char>) -> Option<Seq<char>> {
    match text::split_first(source_and_selector_of(r), "#"@) {
        Some((source, _)) => Some(source),
        None => None,
    }
}

/// The protocol and the source.
pub open spec fn protocol_and_source_of(r: Seq<char>) -> Option<Seq<char>> {
    match text::split_first(resolution_of(r), "#"@) {
        Some((before, _)) => Some(before),
        None => None,
    }
}

/// Whether there is something to fetch.
pub open spec fn is_real(r: Seq<char>) -> bool {
    let protocol = protocol_of(r);
    protocol != "workspace"@ && protocol != "patch"@ && protocol != "link"@
}

/// Whether the entry comes from an npm registry.
pub open spec fn comes_from_npm(r: Seq<char>) -> bool {
    protocol_of(r) == "npm"@
}

/// Whether the entry is a tarball behind a URL.
pub open spec fn comes_from_tar(r: Seq<char>) -> bool {
    &&& protocol_of(r) == "http"@ || protocol_of(r) == "https"@
    &&& text::has_suffix(resolution_of(r), ".tar.gz"@) || text::has_suffix(
        resolution_of(r),
        ".tgz"@,
    )
}

/// Whether the entry comes from a git repository.
pub open spec fn comes_from_git(r: Seq<char>) -> bool {
    text::occurs_in(resolution_of(r), ".git#"@)
}

/// The value of the first `name=value` among the pieces.
pub open spec fn setting(parts: Seq<Seq<char>>, name: Seq<char>) -> Option<Seq<char>>
    decreases parts.len(),
{
    if parts.len() == 0 {
        None
    } else {
        match text::split_first(parts[0], "="@) {
            Some((key, value)) => if key == name {
                Some(value)
            } else {
                setting(parts.drop_first(), name)
            },
            None => setting(parts.drop_first(), name),
        }
    }
}

/// The commit that a selector names.
pub open spec fn commit_in(selector: Seq<char>) -> Option<Seq<char>> {
    setting(text::pieces(selector, '&'), "commit"@)
}

/// What stands behind the last slash of a checksum.
pub open spec fn checksum_of(integrity: Seq<char>) -> Seq<char> {
    text::pieces(integrity, '/').last()
}

/// Whether the checksum is missing or as long as a SHA-512 digest in hexadecimal.
pub open spec fn has_sound_integrity(integrity: Seq<char>) -> bool {
    checksum_of(integrity).len() == 0 || text::byte_len(checksum_of(integrity)) == 128
}

/// The checksum, if there is one.
pub open spec fn sha512_of(integrity: Seq<char>) -> Option<Seq<char>> {
    if checksum_of(integrity).len() == 0 {
        None
    } else {
        Some(checksum_of(integrity))
    }
}

/// Where a package is fetched from: the archive that the bindings name, else the public registry.
pub open spec fn npm_url_from(
    bindings: Option<Seq<(Seq<char>, Seq<char>)>>,
    name: Seq<char>,
    name_rest: Seq<char>,
    selector: Seq<char>,
) -> Seq<char> {
    match bindings {
        Some(pairs) if text::value_of(pairs, "__archiveUrl"@) is Some => text::value_of(
            pairs,
            "__archiveUrl"@,
        )->Some_0,
        _ => "https://registry.npmjs.org/"@ + name + "/-/"@ + name_rest + "-"@ + selector
            + ".tgz"@,
    }
}

/// The bindings as pairs.
pub open spec fn binding_pairs_of(r: Seq<char>) -> Option<Seq<(Seq<char>, Seq<char>)>> {
    match bindings_of(r) {
        Some(bindings) => Some(form_pairs(encode_utf8(bindings))),
        None => None,
    }
}

/// Where the package of a resolution is fetched from.
pub open spec fn npm_url_of(r: Seq<char>) -> Seq<char> {
    npm_url_from(binding_pairs_of(r), name_of(r), name_rest_of(r), selector_of(r))
}

/// The readable part of a file name.
pub open spec fn slug_from(
    name: Seq<char>,
    protocol: Seq<char>,
    selector: Seq<char>,
    version: bool,
) -> Seq<char> {
    let head = text::replaced(name, '/', '-') + "-"@ + protocol;
    if version {
        head + "-"@ + selector
    } else {
        head
    }
}

/// The readable part of the file name of a resolution.
pub open spec fn slug_of(r: Seq<char>) -> Seq<char> {
    slug_from(name_of(r), protocol_of(r), selector_of(r), is_version(selector_of(r)))
}

/// The pairs in a query string, decoded by `form_urlencoded::parse`: what it finds is named
/// `form_pairs` of the bytes. Nothing is said of how it decodes them.
#[verifier::external_body]
fn parse_form(bytes: &[u8]) -> (r: Vec<(String, String)>)
    ensures
        text::pair_texts(r@) == form_pairs(bytes@),
{
    form_urlencoded::parse(bytes).into_owned().collect()
}

/// Whether `semver::Version::parse` takes the text for a version, which is named `is_version` of
/// it. Nothing is said of which texts those are.
#[verifier::external_body]
fn parses_as_version(text: &str) -> (r: bool)
    ensures
        r == is_version(text@),
{
    semver::Version::parse(text).is_ok()
}

/// Where the name ends, and the rest begins one character later.
proof fn lemma_ident_split(r: Seq<char>)
    requires
        has_name(r),
    ensures
        r == name_of(r) + "@"@ + resolution_of(r),
{
    reveal_strlit("@");
    if text::has_prefix(r, "@"@) {
        let t = r.skip(1);
        text::lemma_split_first_joins(t, "@"@);
        assert("@"@[0] == '@');
        assert(r =~= "@"@ + t);
        let (a, b) = text::split_first(t, "@"@)->Some_0;
        assert("@"@ + (a + "@"@ + b) =~= ("@"@ + a) + "@"@ + b);
    } else {
        text::lemma_split_first_joins(r, "@"@);
    }
}

/// The position of the `@` that ends the name.
fn ident_end(r: &str) -> (k: Option<usize>)
    ensures
        k is Some <==> has_name(r@),
        k matches Some(i) ==> {
            &&& i < r@.len()
            &&& name_of(r@) == r@.take(i as int)
            &&& resolution_of(r@) == r@.skip(i + 1)
        },
{
    proof {
        reveal_strlit("@");
    }
    let n = r.unicode_len();
    if text::starts_with(r, "@") {
        let rest = r.substring_char(1, n);
        proof {
            assert(rest@ =~= r@.skip(1));
            assert("@"@[0] == '@');
        }
        match text::find(rest, "@") {
            Some(i) => {
                proof {
                    text::lemma_split_first(rest@, "@"@, i as int);
                    assert("@"@ + rest@.take(i as int) =~= r@.take(i + 1));
                    assert(rest@.skip(i + 1) =~= r@.skip(i + 2));
                }
                Some(i + 1)
            },
            None => {
                proof {
                    text::lemma_split_first_joins(rest@, "@"@);
                }
                None
            },
        }
    } else {
        match text::find(r, "@") {
            Some(i) => {
                proof {
                    text::lemma_split_first(r@, "@"@, i as int);
                }
                Some(i)
            },
            None => {
                proof {
                    text::lemma_split_first_joins(r@, "@"@);
                }
                None
            },
        }
    }
}

/// The value of the first pair whose name is `name`.
fn first_value<'a>(pairs: &'a Vec<(String, String)>, name: &str) -> (r: Option<&'a str>)
    ensures
        text::opt_str(r) == text::value_of(text::pair_texts(pairs@), name@),
{
    let ghost all = text::pair_texts(pairs@);
    let mut i: usize = 0;
    assert(all.skip(0) =~= all);
    while i < pairs.len()
        invariant
            all == text::pair_texts(pairs@),
            i <= pairs.len(),
            text::value_of(all, name@) == text::value_of(all.skip(i as int), name@),
        decreases pairs.len() - i,
    {
        proof {
            assert(all.skip(i as int).drop_first() =~= all.skip(i + 1));
            assert(all.skip(i as int)[0] == all[i as int]);
        }
        if text::same(pairs[i].0.as_str(), name) {
            return Some(pairs[i].1.as_str());
        }
        i += 1;
    }
    None
}

/// Where a package is fetched from, given its bindings.
pub fn npm_url_with(
    bindings: &Option<Vec<(String, String)>>,
    name: &str,
    name_rest: &str,
    selector: &str,
) -> (r: String)
    ensures
        r@ == npm_url_from(
            match bindings {
                Some(pairs) => Some(text::pair_texts(pairs@)),
                None => None,
            },
            name@,
            name_rest@,
            selector@,
        ),
{
    if let Some(pairs) = bindings {
        if let Some(archive_url) = first_value(pairs, "__archiveUrl") {
            return archive_url.to_owned();
        }
    }
    "https://registry.npmjs.org/".to_owned().concat(name).concat("/-/").concat(name_rest).concat(
        "-",
    ).concat(selector).concat(".tgz")
}

/// The readable part of a file name, given whether the selector is a version.
pub fn slug_with(name: &str, protocol: &str, selector: &str, version: bool) -> (r: String)
    ensures
        r@ == slug_from(name@, protocol@, selector@, version),
{
    proof {
        reveal_strlit("-");
    }
    let mut slug = text::replace_char(name, '/', "-");
    slug.append("-");
    slug.append(protocol);
    if version {
        slug.append("-");
        slug.append(selector);
    }
    slug
}

/// The commit that a selector names.
fn find_commit<'a>(selector: &'a str) -> (r: Option<&'a str>)
    ensures
        text::opt_str(r) == commit_in(selector@),
{
    let parts = text::split(selector, '&');
    let ghost all = text::pieces(selector@, '&');
    let mut i: usize = 0;
    assert(all.skip(0) =~= all);
    while i < parts.len()
        invariant
            all == parts@.map_values(|p: &str| p@),
            all == text::pieces(selector@, '&'),
            i <= parts.len(),
            setting(all, "commit"@) == setting(all.skip(i as int), "commit"@),
        decreases parts.len() - i,
    {
        proof {
            assert(all.skip(i as int).drop_first() =~= all.skip(i + 1));
            assert(all.skip(i as int)[0] == parts@[i as int]@);
        }
        if let Some((name, commit)) = text::split_once(parts[i], "=") {
            if text::same(name, "commit") {
                return Some(commit);
            }
        }
        i += 1;
    }
    None
}

/// What can be read off a lockfile entry.
pub trait EntryExt {
    /// The resolution's text.
    spec fn resolved_text(&self) -> Seq<char>;

    /// The checksum's text.
    spec fn integrity_text(&self) -> Seq<char>;

    /// The name, with its scope.
    fn name(&self) -> (r: &str)
        requires
            has_name(self.resolved_text()),
        ensures
            r@ == name_of(self.resolved_text()),
    ;

    /// The name without its scope.
    fn name_rest(&self) -> (r: &str)
        requires
            has_name(self.resolved_text()),
        ensures
            r@ == name_rest_of(self.resolved_text()),
    ;

    /// The scope with its `@`.
    fn scope(&self) -> (r: Option<&str>)
        requires
            has_name(self.resolved_text()),
        ensures
            text::opt_str(r) == scope_of(self.resolved_text()),
    ;

    /// The scope without its `@`.
    fn scope_name(&self) -> (r: Option<&str>)
        requires
            has_name(self.resolved_text()),
            has_sound_scope(self.resolved_text()),
        ensures
            text::opt_str(r) == scope_name_of(self.resolved_text()),
    ;

    /// What the name resolves to.
    fn resolution(&self) -> (r: &str)
        requires
            has_name(self.resolved_text()),
        ensures
            r@ == resolution_of(self.resolved_text()),
    ;

    /// The protocol.
    fn protocol(&self) -> (r: &str)
        requires
            is_locator(self.resolved_text()),
        ensures
            r@ == protocol_of(self.resolved_text()),
    ;

    /// The protocol and the source, if there is a selector behind them.
    fn protocol_and_source(&self) -> (r: Option<&str>)
        requires
            has_name(self.resolved_text()),
        ensures
            text::opt_str(r) == protocol_and_source_of(self.resolved_text()),
    ;

    /// What stands behind the protocol.
    fn source_selector_and_bindings(&self) -> (r: &str)
        requires
            is_locator(self.resolved_text()),
        ensures
            r@ == reference_of(self.resolved_text()),
    ;

    /// The bindings, decoded.
    fn bindings(&self) -> (r: Option<Vec<(String, String)>>)
        requires
            is_locator(self.resolved_text()),
        ensures
            match r {
                Some(pairs) => Some(text::pair_texts(pairs@)),
                None => None,
            } == binding_pairs_of(self.resolved_text()),
    ;

    /// The source and the selector, without the bindings.
    fn source_and_selector(&self) -> (r: &str)
        requires
            is_locator(self.resolved_text()),
        ensures
            r@ == source_and_selector_of(self.resolved_text()),
    ;

    /// The source.
    fn source(&self) -> (r: Option<&str>)
        requires
            is_locator(self.resolved_text()),
        ensures
            text::opt_str(r) == source_of(self.resolved_text()),
    ;

    /// The selector.
    fn selector(&self) -> (r: &str)
        requires
            is_locator(self.resolved_text()),
        ensures
            r@ == selector_of(self.resolved_text()),
    ;

    /// Whether there is something to fetch.
    fn is_real_source(&self) -> (r: bool)
        requires
            is_locator(self.resolved_text()),
        ensures
            r == is_real(self.resolved_text()),
    ;

    /// Whether the entry comes from an npm registry.
    fn is_npm(&self) -> (r: bool)
        requires
            is_locator(self.resolved_text()),
        ensures
            r == comes_from_npm(self.resolved_text()),
    ;

    /// Where the package is fetched from.
    fn npm_url(&self) -> (r: String)
        requires
            is_locator(self.resolved_text()),
        ensures
            r@ == npm_url_of(self.resolved_text()),
    ;

    /// Whether the entry is a tarball behind a URL.
    fn is_tar(&self) -> (r: bool)
        requires
            is_locator(self.resolved_text()),
        ensures
            r == comes_from_tar(self.resolved_text()),
    ;

    /// Whether the entry comes from a git repository.
    fn is_git(&self) -> (r: bool)
        requires
            has_name(self.resolved_text()),
        ensures
            r == comes_from_git(self.resolved_text()),
    ;

    /// The commit that the selector names.
    fn git_commit(&self) -> (r: Option<&str>)
        requires
            is_locator(self.resolved_text()),
        ensures
            text::opt_str(r) == commit_in(selector_of(self.resolved_text())),
    ;

    /// The checksum.
    fn integrity_sha512(&self) -> (r: Option<&str>)
        requires
            has_sound_integrity(self.integrity_text()),
        ensures
            text::opt_str(r) == sha512_of(self.integrity_text()),
    ;

    /// The readable part of the entry's file name.
    fn slug(&self) -> (r: String)
        requires
            is_locator(self.resolved_text()),
        ensures
            r@ == slug_of(self.resolved_text()),
    ;

    /// Whether the entry has a checksum.
    fn is_content_addressed(&self) -> (r: bool)
        ensures
            r == (self.integrity_text().len() > 0),
    ;
}

impl Entry {
    /// Whether the resolution has a name and a protocol.
    pub fn is_well_formed(&self) -> (r: bool)
        ensures
            r == is_locator(self.resolved_text()),
    {
        match ident_end(self.resolved.as_str()) {
            None => false,
            Some(_) => text::contains(self.resolution(), ":"),
        }
    }

    /// Whether the scope, if there is one, begins with an `@`.
    pub fn is_soundly_scoped(&self) -> (r: bool)
        requires
            has_name(self.resolved_text()),
        ensures
            r == has_sound_scope(self.resolved_text()),
    {
        match self.scope() {
            None => true,
            Some(scope) => text::starts_with(scope, "@"),
        }
    }

    /// Whether the checksum is missing or has the length of one.
    pub fn is_soundly_checked(&self) -> (r: bool)
        ensures
            r == has_sound_integrity(self.integrity_text()),
    {
        let checksum = last_piece(self.integrity.as_str());
        checksum.is_empty() || checksum.as_bytes().len() == 128
    }
}

/// What stands behind the last slash.
fn last_piece<'a>(integrity: &'a str) -> (r: &'a str)
    ensures
        r@ == checksum_of(integrity@),
{
    let parts = text::split(integrity, '/');
    proof {
        text::lemma_pieces_nonempty(integrity@, '/');
        assert(parts@.map_values(|p: &str| p@).len() == parts@.len());
    }
    parts[parts.len() - 1]
}

impl EntryExt for Entry {
    open spec fn resolved_text(&self) -> Seq<char> {
        self.resolved@
    }

    open spec fn integrity_text(&self) -> Seq<char> {
        self.integrity@
    }

    fn name(&self) -> (r: &str) {
        let r = self.resolved.as_str();
        match ident_end(r) {
            Some(i) => {
                assert(r@.subrange(0, i as int) =~= r@.take(i as int));
                r.substring_char(0, i)
            },
            None => r,
        }
    }

    fn name_rest(&self) -> (r: &str) {
        let name = self.name();
        match text::split_once(name, "/") {
            None => name,
            Some((_, rest)) => rest,
        }
    }

    fn scope(&self) -> (r: Option<&str>) {
        match text::split_once(self.name(), "/") {
            Some((scope, _)) => Some(scope),
            None => None,
        }
    }

    fn scope_name(&self) -> (r: Option<&str>) {
        proof {
            reveal_strlit("@");
        }
        match self.scope() {
            Some(scope) => {
                let n = scope.unicode_len();
                assert(scope@.skip(1) =~= scope@.subrange(1, n as int));
                Some(scope.substring_char(1, n))
            },
            None => None,
        }
    }

    fn resolution(&self) -> (r: &str) {
        let r = self.resolved.as_str();
        match ident_end(r) {
            Some(i) => {
                let n = r.unicode_len();
                assert(r@.subrange(i + 1, n as int) =~= r@.skip(i + 1));
                r.substring_char(i + 1, n)
            },
            None => r,
        }
    }

    fn protocol(&self) -> (r: &str) {
        let resolution = self.resolution();
        match text::split_once(resolution, ":") {
            Some((protocol, _)) => protocol,
            None => resolution,
        }
    }

    fn protocol_and_source(&self) -> (r: Option<&str>) {
        match text::split_once(self.resolution(), "#") {
            Some((protocol_and_source, _)) => Some(protocol_and_source),
            None => None,
        }
    }

    fn source_selector_and_bindings(&self) -> (r: &str) {
        let resolution = self.resolution();
        match text::split_once(resolution, ":") {
            Some((_, rest)) => rest,
            None => resolution,
        }
    }

    fn bindings(&self) -> (r: Option<Vec<(String, String)>>) {
        match text::rsplit_once(self.source_selector_and_bindings(), "::") {
            Some((_, bindings)) => Some(parse_form(bindings.as_bytes())),
            None => None,
        }
    }

    fn source_and_selector(&self) -> (r: &str) {
        let reference = self.source_selector_and_bindings();
        match text::rsplit_once(reference, "::") {
            Some((before, _)) => before,
            None => reference,
        }
    }

    fn source(&self) -> (r: Option<&str>) {
        match text::split_once(self.source_and_selector(), "#") {
            Some((source, _)) => Some(source),
            None => None,
        }
    }

    fn selector(&self) -> (r: &str) {
        let source_and_selector = self.source_and_selector();
        match text::split_once(source_and_selector, "#") {
            Some((_, selector)) => selector,
            None => source_and_selector,
        }
    }

    fn is_real_source(&self) -> (r: bool) {
        let protocol = self.protocol();
        !(text::same(protocol, "workspace") || text::same(protocol, "patch") || text::same(
            protocol,
            "link",
        ))
    }

    fn is_npm(&self) -> (r: bool) {
        text::same(self.protocol(), "npm")
    }

    fn npm_url(&self) -> (r: String) {
        npm_url_with(&self.bindings(), self.name(), self.name_rest(), self.selector())
    }

    fn is_tar(&self) -> (r: bool) {
        let resolution = self.resolution();
        let protocol = self.protocol();
        (text::same(protocol, "http") || text::same(protocol, "https")) && (text::ends_with(
            resolution,
            ".tar.gz",
        ) || text::ends_with(resolution, ".tgz"))
    }

    fn is_git(&self) -> (r: bool) {
        text::contains(self.resolution(), ".git#")
    }

    fn git_commit(&self) -> (r: Option<&str>) {
        find_commit(self.selector())
    }

    fn integrity_sha512(&self) -> (r: Option<&str>) {
        let integrity = last_piece(self.integrity.as_str());
        if integrity.is_empty() {
            None
        } else {
            Some(integrity)
        }
    }

    fn slug(&self) -> (r: String) {
        let selector = self.selector();
        slug_with(self.name(), self.protocol(), selector, parses_as_version(selector))
    }

    fn is_content_addressed(&self) -> (r: bool) {
        !self.integrity.as_str().is_empty()
    }
}

/// The parts of a resolution, put together again, are the resolution.
pub proof fn law_parts_make_the_resolution(r: Seq<char>)
    requires
        is_locator(r),
    ensures
        r == name_of(r) + "@"@ + resolution_of(r),
        resolution_of(r) == protocol_of(r) + ":"@ + reference_of(r),
        reference_of(r) == match bindings_of(r) {
            Some(bindings) => source_and_selector_of(r) + "::"@ + bindings,
            None => source_and_selector_of(r),
        },
        source_and_selector_of(r) == match source_of(r) {
            Some(source) => source + "#"@ + selector_of(r),
            None => selector_of(r),
        },
        name_of(r) == match scope_of(r) {
            Some(scope) => scope + "/"@ + name_rest_of(r),
            None => name_rest_of(r),
        },
        has_sound_scope(r) && scope_of(r) is Some ==> scope_of(r)->Some_0 == "@"@
            + scope_name_of(r)->Some_0,
{
    lemma_ident_split(r);
    text::lemma_split_first_joins(resolution_of(r), ":"@);
    text::lemma_split_last_joins(reference_of(r), "::"@);
    text::lemma_split_first_joins(source_and_selector_of(r), "#"@);
    text::lemma_split_first_joins(name_of(r), "/"@);
    if has_sound_scope(r) && scope_of(r) is Some {
        reveal_strlit("@");
        let scope = scope_of(r)->Some_0;
        assert("@"@[0] == '@');
        assert(scope =~= "@"@ + scope.skip(1));
    }
}

/// A name is read back from a resolution that was made of it: a name without an `@` but for one
/// at its start, in front of an `@` and anything else.
pub proof fn law_name_reads_back(name: Seq<char>, resolution: Seq<char>)
    requires
        name.len() > 0,
        forall|i: int| 0 < i < name.len() ==> #[trigger] name[i] != '@',
    ensures
        has_name(name + "@"@ + resolution),
        name_of(name + "@"@ + resolution) == name,
        resolution_of(name + "@"@ + resolution) == resolution,
{
    reveal_strlit("@");
    let r = name + "@"@ + resolution;
    let n = name.len() as int;
    assert("@"@[0] == '@');
    if name[0] == '@' {
        assert(text::has_prefix(r, "@"@));
        let t = r.skip(1);
        assert(t[n - 1] == '@');
        assert(text::occurs_at(t, "@"@, n - 1));
        assert forall|j: int| 0 <= j < n - 1 implies !#[trigger] text::occurs_at(t, "@"@, j) by {
            assert(t[j + 0int] == name[j + 1]);
        }
        text::lemma_split_first(t, "@"@, n - 1);
        assert("@"@ + t.take(n - 1) =~= name);
        assert(t.skip(n) =~= resolution);
    } else {
        assert(r[0 + 0int] != '@');
        assert(!text::has_prefix(r, "@"@));
        assert(r[n] == '@');
        assert(text::occurs_at(r, "@"@, n));
        assert forall|j: int| 0 <= j < n implies !#[trigger] text::occurs_at(r, "@"@, j) by {
            assert(r[j + 0int] == name[j]);
        }
        text::lemma_split_first(r, "@"@, n);
        assert(r.take(n) =~= name);
        assert(r.skip(n + 1) =~= resolution);
    }
}

/// An entry from an npm registry is no tarball behind a URL.
pub proof fn law_npm_is_not_tar(r: Seq<char>)
    ensures
        !(comes_from_npm(r) && comes_from_tar(r)),
{
    reveal_strlit("npm");
    reveal_strlit("http");
    reveal_strlit("https");
    assert("npm"@.len() == 3 && "http"@.len() == 4 && "https"@.len() == 5);
}

/// An entry from a git repository says which repository.
pub proof fn law_git_names_its_repository(r: Seq<char>)
    ensures
        comes_from_git(r) ==> protocol_and_source_of(r) is Some,
{
    if comes_from_git(r) {
        reveal_strlit(".git#");
        reveal_strlit("#");
        let s = resolution_of(r);
        let i = choose|i: int| text::occurs_at(s, ".git#"@, i);
        assert(".git#"@[4] == '#');
        assert(s[i + 4] == '#');
        assert(text::occurs_at(s, "#"@, i + 4));
        text::lemma_split_first_joins(s, "#"@);
    }
}

/// The protocol of a resolution is what stands in front of its first colon, and says alone whether
/// there is something to fetch, and whether it comes from an npm registry.
pub proof fn law_protocol_reads_back(name: Seq<char>, protocol: Seq<char>, reference: Seq<char>)
    requires
        name.len() > 0,
        forall|i: int| 0 < i < name.len() ==> #[trigger] name[i] != '@',
        !protocol.contains(':'),
    ensures
        ({
            let r = name + "@"@ + (protocol + ":"@ + reference);
            &&& is_locator(r)
            &&& name_of(r) == name
            &&& resolution_of(r) == protocol + ":"@ + reference
            &&& protocol_of(r) == protocol
            &&& reference_of(r) == reference
            &&& is_real(r) <==> protocol != "workspace"@ && protocol != "patch"@ && protocol
                != "link"@
            &&& comes_from_npm(r) <==> protocol == "npm"@
        }),
{
    reveal_strlit(":");
    let resolution = protocol + ":"@ + reference;
    law_name_reads_back(name, resolution);
    text::lemma_split_at(protocol, ":"@, reference);
    assert(":"@[0] == ':');
    text::lemma_split_first_joins(resolution, ":"@);
}

/// A tarball behind a URL is what is fetched by HTTP and is named like an archive.
pub proof fn law_tarballs_are_told_by_their_urls(
    name: Seq<char>,
    protocol: Seq<char>,
    reference: Seq<char>,
)
    requires
        name.len() > 0,
        forall|i: int| 0 < i < name.len() ==> #[trigger] name[i] != '@',
        !protocol.contains(':'),
    ensures
        ({
            let url = protocol + ":"@ + reference;
            comes_from_tar(name + "@"@ + url) <==> (protocol == "http"@ || protocol == "https"@)
                && (exists|stem: Seq<char>|
                url == #[trigger] (stem + ".tgz"@) || url == stem + ".tar.gz"@)
        }),
{
    let url = protocol + ":"@ + reference;
    law_protocol_reads_back(name, protocol, reference);
    lemma_suffix(url, ".tgz"@);
    lemma_suffix(url, ".tar.gz"@);
    if text::has_suffix(url, ".tgz"@) {
        let stem = url.take(url.len() - ".tgz"@.len());
        assert(url == stem + ".tgz"@);
    }
    if text::has_suffix(url, ".tar.gz"@) {
        let stem = url.take(url.len() - ".tar.gz"@.len());
        assert(url == stem + ".tar.gz"@);
        assert((stem + ".tgz"@).len() == stem.len() + ".tgz"@.len());
    }
    assert forall|stem: Seq<char>| (url == #[trigger] (stem + ".tgz"@) || url == stem + ".tar.gz"@)
        implies text::has_suffix(url, ".tgz"@) || text::has_suffix(url, ".tar.gz"@) by {
        if url == stem + ".tgz"@ {
            assert(text::occurs_at(url, ".tgz"@, stem.len() as int));
        } else {
            assert(text::occurs_at(url, ".tar.gz"@, stem.len() as int));
        }
    }
}

/// A text that ends with another is something in front of it.
proof fn lemma_suffix(s: Seq<char>, end: Seq<char>)
    ensures
        text::has_suffix(s, end) ==> s == s.take(s.len() - end.len()) + end,
{
    if text::has_suffix(s, end) {
        let k = s.len() - end.len();
        assert forall|i: int| 0 <= i < end.len() implies s[k + i] == #[trigger] end[i] by {}
        assert forall|i: int| 0 <= i < s.len() implies s[i] == #[trigger] (s.take(k) + end)[i] by {
            if i >= k {
                assert(s[k + (i - k)] == end[i - k]);
            }
        }
        assert(s =~= s.take(k) + end);
    }
}

/// What resolves to something with a `.git#` in it comes from a repository, and nothing else does.
/// The repository is what stands in front of the first `#`.
pub proof fn law_repositories_are_told_by_their_urls(name: Seq<char>, resolution: Seq<char>)
    requires
        name.len() > 0,
        forall|i: int| 0 < i < name.len() ==> #[trigger] name[i] != '@',
    ensures
        ({
            let r = name + "@"@ + resolution;
            &&& comes_from_git(r) <==> exists|before: Seq<char>, after: Seq<char>|
                resolution == #[trigger] (before + ".git#"@ + after)
            &&& forall|before: Seq<char>, after: Seq<char>|
                resolution == #[trigger] (before + "#"@ + after) && !before.contains('#')
                    ==> protocol_and_source_of(r) == Some(before)
            &&& !resolution.contains('#') ==> protocol_and_source_of(r) is None
        }),
{
    reveal_strlit("#");
    assert("#"@[0] == '#');
    let r = name + "@"@ + resolution;
    law_name_reads_back(name, resolution);
    if comes_from_git(r) {
        text::lemma_split_first_joins(resolution, ".git#"@);
        let (before, after) = text::split_first(resolution, ".git#"@)->Some_0;
        assert(resolution == before + ".git#"@ + after);
    }
    assert forall|before: Seq<char>, after: Seq<char>| resolution == #[trigger] (before + ".git#"@
        + after) implies comes_from_git(r) by {
        let i = before.len() as int;
        assert forall|k: int| 0 <= k < ".git#"@.len() implies resolution[i + k]
            == #[trigger] ".git#"@[k] by {}
        assert(text::occurs_at(resolution, ".git#"@, i));
    }
    assert forall|before: Seq<char>, after: Seq<char>|
        resolution == #[trigger] (before + "#"@ + after) && !before.contains(
            '#',
        ) implies protocol_and_source_of(r) == Some(before) by {
        text::lemma_split_at(before, "#"@, after);
    }
    if !resolution.contains('#') {
        text::lemma_split_nowhere(resolution, "#"@);
    }
}

/// Whether two colons stand one behind the other in the text.
pub open spec fn has_colons(s: Seq<char>) -> bool {
    exists|i: int| 0 <= i && i + 1 < s.len() && #[trigger] s[i] == ':' && s[i + 1] == ':'
}

/// The bindings of a resolution are what stands behind its last `::`; a resolution without one has
/// none.
pub proof fn law_bindings_read_back(
    name: Seq<char>,
    protocol: Seq<char>,
    before: Seq<char>,
    bindings: Seq<char>,
)
    requires
        name.len() > 0,
        forall|i: int| 0 < i < name.len() ==> #[trigger] name[i] != '@',
        !protocol.contains(':'),
        !has_colons(bindings),
        bindings.len() > 0 ==> bindings[0] != ':',
    ensures
        ({
            let r = name + "@"@ + (protocol + ":"@ + (before + "::"@ + bindings));
            &&& bindings_of(r) == Some(bindings)
            &&& binding_pairs_of(r) == Some(form_pairs(encode_utf8(bindings)))
            &&& source_and_selector_of(r) == before
        }),
        !has_colons(before) ==> {
            let r = name + "@"@ + (protocol + ":"@ + before);
            &&& bindings_of(r) is None
            &&& binding_pairs_of(r) is None
            &&& source_and_selector_of(r) == before
        },
{
    reveal_strlit("::");
    assert("::"@[0] == ':' && "::"@[1] == ':');
    let reference = before + "::"@ + bindings;
    let n = before.len() as int;
    law_protocol_reads_back(name, protocol, reference);
    law_protocol_reads_back(name, protocol, before);
    assert(text::occurs_at(reference, "::"@, n));
    assert forall|j: int| j > n implies !#[trigger] text::occurs_at(reference, "::"@, j) by {
        if text::occurs_at(reference, "::"@, j) {
            assert(reference[j + 0] == "::"@[0]);
            assert(reference[j + 1] == "::"@[1]);
            if j == n + 1 {
                assert(bindings[0] == ':');
            } else {
                assert(bindings[j - n - 2] == ':' && bindings[j - n - 1] == ':');
                assert(has_colons(bindings));
            }
        }
    }
    text::lemma_split_last(reference, "::"@, n);
    assert(reference.take(n) =~= before);
    assert(reference.skip(n + 2) =~= bindings);
    if !has_colons(before) {
        assert forall|j: int| !#[trigger] text::occurs_at(before, "::"@, j) by {
            if text::occurs_at(before, "::"@, j) {
                assert(before[j + 0] == "::"@[0]);
                assert(before[j + 1] == "::"@[1]);
                assert(has_colons(before));
            }
        }
    }
}

/// The selector is what stands behind the first `#`, and the source what stands in front of it;
/// without a `#` there is no source.
pub proof fn law_selector_reads_back(r: Seq<char>, source: Seq<char>, selector: Seq<char>)
    ensures
        source_and_selector_of(r) == source + "#"@ + selector && !source.contains('#') ==> selector_of(
            r,
        ) == selector && source_of(r) == Some(source),
        source_and_selector_of(r) == selector && !selector.contains('#') ==> selector_of(r)
            == selector && source_of(r) is None,
{
    reveal_strlit("#");
    assert("#"@[0] == '#');
    if !source.contains('#') {
        text::lemma_split_at(source, "#"@, selector);
    }
    if !selector.contains('#') {
        text::lemma_split_nowhere(selector, "#"@);
    }
}

/// The scope is what stands in front of the first slash of a name, and the rest what stands behind
/// it; a name without a slash has no scope.
pub proof fn law_scope_reads_back(r: Seq<char>, scope: Seq<char>, rest: Seq<char>)
    ensures
        name_of(r) == scope + "/"@ + rest && !scope.contains('/') ==> scope_of(r) == Some(scope)
            && name_rest_of(r) == rest,
        name_of(r) == "@"@ + scope + "/"@ + rest && !scope.contains('/') ==> scope_name_of(r)
            == Some(scope) && has_sound_scope(r),
        name_of(r) == rest && !rest.contains('/') ==> scope_of(r) is None && name_rest_of(r) == rest
            && scope_name_of(r) is None && has_sound_scope(r),
{
    reveal_strlit("/");
    reveal_strlit("@");
    assert("/"@[0] == '/' && "@"@[0] == '@');
    if !scope.contains('/') {
        text::lemma_split_at(scope, "/"@, rest);
        let full = "@"@ + scope;
        assert(!full.contains('/')) by {
            if full.contains('/') {
                let i = choose|i: int| 0 <= i < full.len() && full[i] == '/';
                assert(scope[i - 1] == '/');
            }
        }
        text::lemma_split_at(full, "/"@, rest);
        assert(full.skip(1) =~= scope);
        assert(text::has_prefix(full, "@"@)) by {
            assert(full[0 + 0int] == "@"@[0]);
        }
    }
    if !rest.contains('/') {
        text::lemma_split_nowhere(rest, "/"@);
    }
}

/// The commit is what the first of the settings between the `&` has that begins with `commit=`.
pub proof fn law_commits_read_back(commit: Seq<char>, other: Seq<char>, rest: Seq<char>)
    requires
        !commit.contains('&'),
        !other.contains('&'),
        other.len() < 7 || other.take(7) != "commit="@,
    ensures
        commit_in("commit="@ + commit) == Some(commit),
        commit_in("commit="@ + commit + "&"@ + rest) == Some(commit),
        commit_in(other) is None,
        commit_in(other + "&"@ + rest) == commit_in(rest),
{
    reveal_strlit("commit=");
    reveal_strlit("commit");
    reveal_strlit("=");
    reveal_strlit("&");
    reveal_with_fuel(setting, 2);
    assert("="@[0] == '=');
    assert("&"@ =~= seq!['&']);
    assert("commit="@ =~= "commit"@ + "="@);
    let first = "commit="@ + commit;
    assert(!first.contains('&')) by {
        if first.contains('&') {
            let i = choose|i: int| 0 <= i < first.len() && first[i] == '&';
            assert(i >= 7 && commit[i - 7] == '&');
        }
    }
    assert(first =~= "commit"@ + "="@ + commit);
    assert(!"commit"@.contains('='));
    text::lemma_split_at("commit"@, "="@, commit);
    text::lemma_one_piece(first, '&');
    text::lemma_one_piece(other, '&');
    text::lemma_pieces_around(first, rest, '&');
    text::lemma_pieces_around(other, rest, '&');
    let ps = text::pieces(rest, '&');
    assert((seq![first] + ps)[0] == first);
    assert((seq![other] + ps)[0] == other);
    assert((seq![other] + ps).drop_first() =~= ps);
    assert(seq![other].drop_first() =~= Seq::<Seq<char>>::empty());
    text::lemma_split_first_joins(other, "="@);
    if let Some((key, value)) = text::split_first(other, "="@) {
        if key == "commit"@ {
            assert(other.take(7) =~= "commit="@);
        }
    }
}

/// The checksum of an entry is what stands behind the last slash, if that is anything, and is sound
/// if it has the length of one.
pub proof fn law_checksums_read_back(before: Seq<char>, sum: Seq<char>)
    requires
        !sum.contains('/'),
    ensures
        sum.len() > 0 ==> sha512_of(sum) == Some(sum) && sha512_of(before + "/"@ + sum) == Some(sum),
        sum.len() == 0 ==> sha512_of(sum) is None && sha512_of(before + "/"@ + sum) is None,
        has_sound_integrity(sum) <==> sum.len() == 0 || encode_utf8(sum).len() == 128,
        has_sound_integrity(before + "/"@ + sum) <==> sum.len() == 0 || encode_utf8(sum).len()
            == 128,
{
    reveal_strlit("/");
    assert("/"@ =~= seq!['/']);
    text::lemma_one_piece(sum, '/');
    text::lemma_pieces_around(before, sum, '/');
    assert((text::pieces(before, '/') + seq![sum]).last() == sum);
}

/// Without an archive that the bindings name, a package is fetched from the public registry: the URL
/// begins with the registry and the name, and ends with the version and `.tgz`.
pub proof fn law_registry_urls(
    pairs: Option<Seq<(Seq<char>, Seq<char>)>>,
    name: Seq<char>,
    rest: Seq<char>,
    version: Seq<char>,
)
    requires
        pairs matches Some(list) ==> forall|i: int|
            0 <= i < list.len() ==> (#[trigger] list[i]).0 != "__archiveUrl"@,
    ensures
        ({
            let url = npm_url_from(pairs, name, rest, version);
            let head = "https://registry.npmjs.org/"@ + name + "/-/"@;
            let file = rest + "-"@ + version + ".tgz"@;
            &&& url.len() == head.len() + file.len()
            &&& forall|i: int| 0 <= i < head.len() ==> url[i] == #[trigger] head[i]
            &&& forall|i: int| 0 <= i < file.len() ==> url[head.len() + i] == #[trigger] file[i]
        }),
{
    if let Some(list) = pairs {
        lemma_no_value(list, "__archiveUrl"@);
    }
    let head = "https://registry.npmjs.org/"@ + name + "/-/"@;
    let file = rest + "-"@ + version + ".tgz"@;
    let url = npm_url_from(pairs, name, rest, version);
    assert(url =~= head + file);
}

/// Two versions of one package have different URLs.
pub proof fn law_urls_tell_versions_apart(
    pairs: Option<Seq<(Seq<char>, Seq<char>)>>,
    name: Seq<char>,
    rest: Seq<char>,
    one: Seq<char>,
    other: Seq<char>,
)
    requires
        pairs matches Some(list) ==> forall|i: int|
            0 <= i < list.len() ==> (#[trigger] list[i]).0 != "__archiveUrl"@,
        one != other,
    ensures
        npm_url_from(pairs, name, rest, one) != npm_url_from(pairs, name, rest, other),
{
    law_registry_urls(pairs, name, rest, one);
    law_registry_urls(pairs, name, rest, other);
    let head = "https://registry.npmjs.org/"@ + name + "/-/"@;
    let k = (rest + "-"@).len() as int;
    let a = rest + "-"@ + one + ".tgz"@;
    let b = rest + "-"@ + other + ".tgz"@;
    let url = npm_url_from(pairs, name, rest, one);
    if url == npm_url_from(pairs, name, rest, other) {
        assert(one.len() == other.len());
        assert forall|i: int| 0 <= i < one.len() implies one[i] == other[i] by {
            assert(a[k + i] == one[i]);
            assert(b[k + i] == other[i]);
            assert(url[head.len() + (k + i)] == a[k + i]);
            assert(url[head.len() + (k + i)] == b[k + i]);
        }
        assert(one =~= other);
    }
}

/// The archive that the bindings name first is where a package is fetched from, whatever it is called.
pub proof fn law_named_archives_are_fetched(
    pairs: Seq<(Seq<char>, Seq<char>)>,
    i: int,
    name: Seq<char>,
    rest: Seq<char>,
    version: Seq<char>,
)
    requires
        0 <= i < pairs.len(),
        pairs[i].0 == "__archiveUrl"@,
        forall|j: int| 0 <= j < i ==> (#[trigger] pairs[j]).0 != "__archiveUrl"@,
    ensures
        npm_url_from(Some(pairs), name, rest, version) == pairs[i].1,
{
    lemma_value_is_found(pairs, i, "__archiveUrl"@);
}

proof fn lemma_no_value(pairs: Seq<(Seq<char>, Seq<char>)>, name: Seq<char>)
    requires
        forall|i: int| 0 <= i < pairs.len() ==> (#[trigger] pairs[i]).0 != name,
    ensures
        text::value_of(pairs, name) is None,
    decreases pairs.len(),
{
    if pairs.len() > 0 {
        let tail = pairs.drop_first();
        assert(pairs[0].0 != name);
        assert forall|j: int| 0 <= j < tail.len() implies (#[trigger] tail[j]).0 != name by {
            assert(tail[j] == pairs[j + 1]);
        }
        lemma_no_value(tail, name);
    }
}

proof fn lemma_value_is_found(pairs: Seq<(Seq<char>, Seq<char>)>, i: int, name: Seq<char>)
    requires
        0 <= i < pairs.len(),
        pairs[i].0 == name,
        forall|j: int| 0 <= j < i ==> (#[trigger] pairs[j]).0 != name,
    ensures
        text::value_of(pairs, name) == Some(pairs[i].1),
    decreases i,
{
    if i > 0 {
        let tail = pairs.drop_first();
        assert(pairs[0].0 != name);
        assert(tail[i - 1] == pairs[i]);
        assert forall|j: int| 0 <= j < i - 1 implies (#[trigger] tail[j]).0 != name by {
            assert(tail[j] == pairs[j + 1]);
        }
        lemma_value_is_found(tail, i - 1, name);
    }
}

/// A scope and a name make a name with one `@`, at its start, and one slash.
pub proof fn lemma_scoped_name(scope: Seq<char>, name: Seq<char>)
    requires
        !name.contains('@'),
        !scope.contains('@'),
        !scope.contains('/'),
    ensures
        ({
            let full = "@"@ + scope + "/"@ + name;
            &&& full.len() > 0
            &&& forall|i: int| 0 < i < full.len() ==> #[trigger] full[i] != '@'
            &&& !("@"@ + scope).contains('/')
        }),
        forall|i: int| 0 < i < name.len() ==> #[trigger] name[i] != '@',
{
    reveal_strlit("@");
    reveal_strlit("/");
    assert("@"@[0] == '@' && "/"@[0] == '/');
    let full = "@"@ + scope + "/"@ + name;
    assert forall|i: int| 0 < i < name.len() implies #[trigger] name[i] != '@' by {
        assert(name.contains(name[i]));
    }
    assert forall|i: int| 0 < i < full.len() implies #[trigger] full[i] != '@' by {
        if i <= scope.len() {
            assert(full[i] == scope[i - 1]);
            assert(scope.contains(scope[i - 1]));
        } else if i > scope.len() + 1 {
            assert(full[i] == name[i - scope.len() - 2]);
            assert(name.contains(name[i - scope.len() - 2]));
        }
    }
    text::lemma_in_neither("@"@, scope, '/');
}

/// The parts of a resolution that has neither source nor bindings.
proof fn lemma_plain_resolution(name: Seq<char>, protocol: Seq<char>, selector: Seq<char>)
    requires
        name.len() > 0,
        forall|i: int| 0 < i < name.len() ==> #[trigger] name[i] != '@',
        !protocol.contains(':'),
        !selector.contains('#'),
        !has_colons(selector),
    ensures
        ({
            let r = name + "@"@ + (protocol + ":"@ + selector);
            &&& name_of(r) == name
            &&& protocol_of(r) == protocol
            &&& selector_of(r) == selector
            &&& binding_pairs_of(r) is None
        }),
{
    let none = Seq::<char>::empty();
    law_protocol_reads_back(name, protocol, selector);
    law_bindings_read_back(name, protocol, selector, none);
    law_selector_reads_back(name + "@"@ + (protocol + ":"@ + selector), none, selector);
}

/// A package that an npm registry has under a name and a version is fetched by both of them, and the
/// file is named without the scope.
pub proof fn law_packages_are_fetched_by_name_and_version(
    scope: Seq<char>,
    name: Seq<char>,
    version: Seq<char>,
)
    requires
        name.len() > 0,
        !name.contains('@'),
        !name.contains('/'),
        !scope.contains('@'),
        !scope.contains('/'),
        !version.contains('#'),
        !has_colons(version),
    ensures
        npm_url_of(name + "@"@ + ("npm"@ + ":"@ + version)) == "https://registry.npmjs.org/"@ + name
            + "/-/"@ + name + "-"@ + version + ".tgz"@,
        ({
            let full = "@"@ + scope + "/"@ + name;
            npm_url_of(full + "@"@ + ("npm"@ + ":"@ + version)) == "https://registry.npmjs.org/"@
                + full + "/-/"@ + name + "-"@ + version + ".tgz"@
        }),
{
    assert(!"npm"@.contains(':')) by {
        reveal_strlit("npm");
    }
    let full = "@"@ + scope + "/"@ + name;
    lemma_scoped_name(scope, name);
    lemma_plain_resolution(name, "npm"@, version);
    lemma_plain_resolution(full, "npm"@, version);
    law_scope_reads_back(name + "@"@ + ("npm"@ + ":"@ + version), scope, name);
    law_scope_reads_back(full + "@"@ + ("npm"@ + ":"@ + version), "@"@ + scope, name);
}

/// The readable part of a file name keeps the name but for its slashes, which are dashes, and goes on
/// with the protocol. A version stands at its end.
pub proof fn law_slugs_keep_the_name(
    name: Seq<char>,
    protocol: Seq<char>,
    selector: Seq<char>,
    version: bool,
)
    ensures
        ({
            let slug = slug_from(name, protocol, selector, version);
            &&& name.len() <= slug.len()
            &&& forall|i: int|
                0 <= i < name.len() ==> #[trigger] slug[i] == if name[i] == '/' {
                    '-'
                } else {
                    name[i]
                }
            &&& slug.skip(name.len() as int) == if version {
                "-"@ + protocol + "-"@ + selector
            } else {
                "-"@ + protocol
            }
            &&& !name.contains('/') ==> slug.take(name.len() as int) == name
        }),
{
    let slug = slug_from(name, protocol, selector, version);
    let head = text::replaced(name, '/', '-');
    assert(head.len() == name.len());
    assert forall|i: int| 0 <= i < name.len() implies #[trigger] slug[i] == if name[i] == '/' {
        '-'
    } else {
        name[i]
    } by {
        assert(slug[i] == head[i]);
    }
    if version {
        assert(slug.skip(name.len() as int) =~= "-"@ + protocol + "-"@ + selector);
    } else {
        assert(slug.skip(name.len() as int) =~= "-"@ + protocol);
    }
    if !name.contains('/') {
        assert forall|i: int| 0 <= i < name.len() implies slug[i] == name[i] by {
            assert(name.contains(name[i]));
        }
        assert(slug.take(name.len() as int) =~= name);
    }
}

/// The file of a package is named by the package and the protocol, and by its version if it has one.
/// The slash behind a scope is a dash.
pub proof fn law_files_are_named_by_package(
    scope: Seq<char>,
    name: Seq<char>,
    protocol: Seq<char>,
    selector: Seq<char>,
)
    requires
        name.len() > 0,
        !name.contains('@'),
        !name.contains('/'),
        !scope.contains('@'),
        !scope.contains('/'),
        !protocol.contains(':'),
        !selector.contains('#'),
        !has_colons(selector),
    ensures
        ({
            let tail = if is_version(selector) {
                "-"@ + protocol + "-"@ + selector
            } else {
                "-"@ + protocol
            };
            &&& slug_of(name + "@"@ + (protocol + ":"@ + selector)) == name + tail
            &&& slug_of(("@"@ + scope + "/"@ + name) + "@"@ + (protocol + ":"@ + selector)) == (
            "@"@ + scope + "-"@ + name) + tail
        }),
{
    let full = "@"@ + scope + "/"@ + name;
    let flat = "@"@ + scope + "-"@ + name;
    lemma_scoped_name(scope, name);
    lemma_plain_resolution(name, protocol, selector);
    lemma_plain_resolution(full, protocol, selector);
    let v = is_version(selector);
    law_slugs_keep_the_name(name, protocol, selector, v);
    law_slugs_keep_the_name(full, protocol, selector, v);
    let a = slug_from(name, protocol, selector, v);
    let b = slug_from(full, protocol, selector, v);
    assert(a =~= a.take(name.len() as int) + a.skip(name.len() as int));
    assert(b =~= b.take(full.len() as int) + b.skip(full.len() as int));
    assert(b.take(full.len() as int) =~= flat) by {
        reveal_strlit("@");
        reveal_strlit("/");
        reveal_strlit("-");
        assert("@"@[0] == '@' && "/"@[0] == '/' && "-"@[0] == '-');
        assert(full.len() == flat.len());
        assert forall|i: int| 0 <= i < full.len() implies #[trigger] b[i] == flat[i] by {
            if 0 < i <= scope.len() {
                assert(full[i] == scope[i - 1]);
                assert(scope.contains(scope[i - 1]));
            } else if i > scope.len() + 1 {
                assert(full[i] == name[i - scope.len() - 2]);
                assert(name.contains(name[i - scope.len() - 2]));
            }
        }
    }
}

/// A text has a name if an `@` stands in it that does not begin it, and is a locator if a colon stands
/// somewhere behind the first such `@`.
#[verifier::spinoff_prover]
#[verifier::rlimit(30)]
pub proof fn law_what_locators_are(r: Seq<char>)
    ensures
        has_name(r) <==> exists|i: int| 0 < i < r.len() && #[trigger] r[i] == '@',
        has_name(r) ==> {
            let n = name_of(r).len() as int;
            &&& 0 < n < r.len()
            &&& r[n] == '@'
            &&& forall|i: int| 0 < i < n ==> #[trigger] r[i] != '@'
            &&& name_of(r) == r.take(n)
            &&& resolution_of(r) == r.skip(n + 1)
            &&& is_locator(r) <==> r.skip(n + 1).contains(':')
        },
{
    if has_name(r) {
        lemma_name_has_an_at_sign(r);
    }
    if exists|i: int| 0 < i < r.len() && #[trigger] r[i] == '@' {
        let i = choose|i: int| 0 < i < r.len() && #[trigger] r[i] == '@';
        let k = lemma_first_at_sign(r, i);
        lemma_cut_at_sign(r, k);
        lemma_holds_colon(r.skip(k + 1));
    }
}

/// The name ends in front of an `@` that does not begin the text.
proof fn lemma_name_has_an_at_sign(r: Seq<char>)
    requires
        has_name(r),
    ensures
        exists|i: int| 0 < i < r.len() && #[trigger] r[i] == '@',
{
    reveal_strlit("@");
    assert("@"@[0] == '@');
    lemma_ident_split(r);
    let n = name_of(r).len() as int;
    assert(r[n] == '@');
    if n == 0 {
        assert(r[0 + 0int] == "@"@[0]);
        assert(text::has_prefix(r, "@"@));
        assert(name_of(r)[0] == '@');
    }
}

/// The text is cut at the first `@` that does not begin it.
proof fn lemma_cut_at_sign(r: Seq<char>, k: int)
    requires
        0 < k < r.len(),
        r[k] == '@',
        forall|j: int| 0 < j < k ==> #[trigger] r[j] != '@',
    ensures
        has_name(r),
        name_of(r) == r.take(k),
        resolution_of(r) == r.skip(k + 1),
{
    reveal_strlit("@");
    assert("@"@[0] == '@');
    let name = r.take(k);
    assert forall|j: int| 0 < j < name.len() implies #[trigger] name[j] != '@' by {
        assert(name[j] == r[j]);
    }
    assert(r =~= name + "@"@ + r.skip(k + 1));
    law_name_reads_back(name, r.skip(k + 1));
}

/// A colon occurs where it is held.
proof fn lemma_holds_colon(s: Seq<char>)
    ensures
        text::occurs_in(s, ":"@) <==> s.contains(':'),
{
    reveal_strlit(":");
    assert(":"@[0] == ':');
    if text::occurs_in(s, ":"@) {
        let at = choose|at: int| text::occurs_at(s, ":"@, at);
        assert(s[at + 0] == ":"@[0]);
        assert(s.contains(s[at]));
    }
    if s.contains(':') {
        let i = choose|i: int| 0 <= i < s.len() && s[i] == ':';
        assert(s[i + 0] == ":"@[0]);
        assert(text::occurs_at(s, ":"@, i));
    }
}

/// The first `@` that does not begin a text.
proof fn lemma_first_at_sign(r: Seq<char>, i: int) -> (k: int)
    requires
        0 < i < r.len(),
        r[i] == '@',
    ensures
        0 < k <= i,
        r[k] == '@',
        forall|j: int| 0 < j < k ==> #[trigger] r[j] != '@',
    decreases i,
{
    if exists|j: int| 0 < j < i && #[trigger] r[j] == '@' {
        let j = choose|j: int| 0 < j < i && #[trigger] r[j] == '@';
        lemma_first_at_sign(r, j)
    } else {
        i
    }
}

} // verus!
