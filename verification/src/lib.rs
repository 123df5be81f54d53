//! Discovery of proxy settings and per-destination routing decisions.
//!
//! A resolved [`ProxyConfig`] maps URL schemes to proxy endpoints and carries
//! a whitelist of hosts that must bypass the proxy.  Configuration candidates
//! come from the process environment and from a sysconfig-style proxy file;
//! the environment takes precedence.

use vstd::prelude::*;

pub mod env;
pub mod sysconfig_proxy;
pub mod text;

use crate::text::{
    contains_char, ends_with, ends_with_str, has_char, kv_views, lookup_kv, lower_of, lowercase,
    str_eq, views_of,
};

verus! {

/// Why proxy discovery failed outright.
///
/// A source whose backing data is merely absent or disabled never yields one
/// of these: absence is reported as `None`, not as an error.
#[derive(Clone, Copy, Debug, PartialEq, Eq, Structural)]
pub enum ProxyError {
    /// No configuration source at all was given to the resolver.
    PlatformNotSupported,
    /// A source's backing data is structurally malformed.
    InvalidConfig,
    /// Reading a source's backing data failed for a reason other than absence.
    Io,
}

/// An immutable snapshot of proxy settings.
///
/// `proxies` associates lowercase scheme tokens (`"http"`, or the wildcard
/// `"*"`) with proxy endpoints; `whitelist` holds lowercase hostnames and
/// `*`-patterns that bypass the proxy; `exclude_simple` makes every dotless
/// hostname bypass the proxy.
#[derive(Clone, Debug, PartialEq, Eq)]
pub struct ProxyConfig {
    pub proxies: Vec<(String, String)>,
    pub whitelist: Vec<String>,
    pub exclude_simple: bool,
}

/// The mathematical content of a [`ProxyConfig`]: scheme/endpoint pairs in
/// precedence order, whitelist entries, and the dotless-bypass flag.
pub struct ProxyConfigView {
    pub proxies: Seq<(Seq<char>, Seq<char>)>,
    pub whitelist: Seq<Seq<char>>,
    pub exclude_simple: bool,
}

impl View for ProxyConfig {
    type V = ProxyConfigView;

    open spec fn view(&self) -> ProxyConfigView {
        ProxyConfigView {
            proxies: kv_views(self.proxies@),
            whitelist: views_of(self.whitelist@),
            exclude_simple: self.exclude_simple,
        }
    }
}

impl Default for ProxyConfig {
    /// No proxies, no whitelist entries, dotless hostnames not excluded.
    fn default() -> (r: ProxyConfig)
        ensures
            r@.proxies == Seq::<(Seq<char>, Seq<char>)>::empty(),
            r@.whitelist == Seq::<Seq<char>>::empty(),
            !r@.exclude_simple,
    {
        let r = ProxyConfig { proxies: Vec::new(), whitelist: Vec::new(), exclude_simple: false };
        proof {
            assert(r@.proxies =~= Seq::<(Seq<char>, Seq<char>)>::empty());
            assert(r@.whitelist =~= Seq::<Seq<char>>::empty());
        }
        r
    }
}

/// Whether whitelist pattern `p` bypasses `host` by the wildcard rule: the
/// substring strictly after the rightmost `*` of `p` must be non-empty and a
/// suffix of `host`.  A pattern without `*`, or one whose rightmost `*` is
/// its final character, bypasses nothing by this rule.
pub open spec fn pattern_bypasses(p: Seq<char>, host: Seq<char>) -> bool {
    exists|i: int|
        0 <= i < p.len() && #[trigger] p[i] == '*' && (forall|j: int|
            i < j < p.len() ==> p[j] != '*') && i + 1 < p.len() && ends_with(
            host,
            p.subrange(i + 1, p.len() as int),
        )
}

/// Whether `host` (already normalized to lowercase) bypasses the proxy under
/// configuration `c`: dotless with `exclude_simple`, an exact whitelist
/// member, or matched by some whitelist pattern's wildcard suffix.
pub open spec fn bypasses(c: ProxyConfigView, host: Seq<char>) -> bool {
    ||| (c.exclude_simple && !has_char(host, '.'))
    ||| c.whitelist.contains(host)
    ||| exists|i: int| 0 <= i < c.whitelist.len() && pattern_bypasses(#[trigger] c.whitelist[i], host)
}

/// The host component that the `url` crate extracts from `s`, when `s`
/// parses as an absolute URL with a host; `None` otherwise.
pub uninterp spec fn url_host_of(s: Seq<char>) -> Option<Seq<char>>;

/// The hostname that the matcher judges for destination `address`: the URL's
/// host component when one exists, the whole string otherwise, lowercased.
pub open spec fn normalized_host(address: Seq<char>) -> Seq<char> {
    match url_host_of(address) {
        Some(h) => lower_of(h),
        None => lower_of(address),
    }
}

/// Relies on `url::Url::parse` and `url::Url::host_str`: the host component
/// of an address string depends on that string alone.  `None` covers both a
/// string that does not parse as an absolute URL and a URL without a host.
#[verifier::external_body]
fn parse_url_host(address: &str) -> (r: Option<String>)
    ensures
        match r {
            Some(h) => url_host_of(address@) == Some(h@),
            None => url_host_of(address@) == None::<Seq<char>>,
        },
{
    match url::Url::parse(address) {
        Ok(u) => u.host_str().map(|h| h.to_owned()),
        Err(_) => None,
    }
}

#[verifier::external_type_specification]
#[verifier::external_body]
pub struct ExUrl(url::Url);

/// The serialization that `url::Url::as_str` returns: a function of the URL
/// value alone.
pub uninterp spec fn url_str_of(u: url::Url) -> Seq<char>;

/// The scheme that `url::Url::scheme` returns: a function of the URL value
/// alone.
pub uninterp spec fn url_scheme_of(u: url::Url) -> Seq<char>;

/// Relies on `url::Url::as_str`: returns the URL's serialization, which
/// depends on the URL value alone.
#[verifier::external_body]
fn url_as_str(u: &url::Url) -> (r: &str)
    ensures
        r@ == url_str_of(*u),
{
    u.as_str()
}

/// Relies on `url::Url::scheme`: returns the URL's scheme, lower-cased
/// ASCII without the `:` delimiter, which depends on the URL value alone.
#[verifier::external_body]
fn url_scheme(u: &url::Url) -> (r: &str)
    ensures
        r@ == url_scheme_of(*u),
{
    u.scheme()
}

/// Whether whitelist pattern `pattern` bypasses `host` by the wildcard rule.
fn pattern_matches(pattern: &str, host: &str) -> (r: bool)
    ensures
        r == pattern_bypasses(pattern@, host@),
{
    let n = pattern.unicode_len();
    let mut i: usize = n;
    while i > 0 && pattern.get_char(i - 1) != '*'
        invariant
            0 <= i <= n,
            n == pattern@.len(),
            forall|j: int| i <= j < n ==> pattern@[j] != '*',
        decreases i,
    {
        i = i - 1;
    }
    if i == 0 {
        // No `*` anywhere in the pattern.
        return false;
    }
    let star = i - 1;
    proof {
        assert(pattern@[star as int] == '*');
    }
    if star + 1 == n {
        // Rightmost `*` is the final character: the suffix is empty.
        proof {
            assert forall|k: int|
                0 <= k < n && #[trigger] pattern@[k] == '*' && (forall|j: int|
                    k < j < n ==> pattern@[j] != '*') implies k == star as int by {
                if k < star as int {
                    assert(pattern@[star as int] != '*');
                }
            }
        }
        return false;
    }
    let suffix = pattern.substring_char(star + 1, n);
    let r = ends_with_str(host, suffix);
    proof {
        if r {
            assert(pattern_bypasses(pattern@, host@)) by {
                assert(pattern@[star as int] == '*' && (forall|j: int|
                    (star as int) < j < n ==> pattern@[j] != '*') && star + 1 < n && ends_with(
                    host@,
                    pattern@.subrange(star + 1, n as int),
                ));
            }
        } else {
            assert forall|k: int|
                0 <= k < n && #[trigger] pattern@[k] == '*' && (forall|j: int|
                    k < j < n ==> pattern@[j] != '*') implies k == star as int by {
                if k < star as int {
                    assert(pattern@[star as int] != '*');
                }
            }
        }
    }
    r
}

/// The view of a configuration source's outcome: success with a
/// configuration, absence, or a fault.
pub open spec fn outcome_view(r: Result<Option<ProxyConfig>, ProxyError>) -> Result<
    Option<ProxyConfigView>,
    ProxyError,
> {
    match r {
        Ok(Some(c)) => Ok(Some(c@)),
        Ok(None) => Ok(None),
        Err(e) => Err(e),
    }
}

/// The views of a sequence of source outcomes.
pub open spec fn outcome_views(s: Seq<Result<Option<ProxyConfig>, ProxyError>>) -> Seq<
    Result<Option<ProxyConfigView>, ProxyError>,
> {
    s.map_values(|o| outcome_view(o))
}

/// The wildcard scheme key `"*"`, the fallback when a scheme has no entry.
pub open spec fn star_key() -> Seq<char> {
    seq!['*']
}

/// The proxy endpoint chosen for normalized host `host` and scheme `scheme`
/// under configuration `c`: `None` when the host bypasses or no entry fits,
/// else the scheme's endpoint (or the `"*"` fallback) lowercased.
pub open spec fn proxy_for(c: ProxyConfigView, host: Seq<char>, scheme: Seq<char>) -> Option<
    Seq<char>,
> {
    if bypasses(c, host) {
        None
    } else {
        match lookup_kv(c.proxies, scheme) {
            Some(v) => Some(lower_of(v)),
            None => match lookup_kv(c.proxies, star_key()) {
                Some(v) => Some(lower_of(v)),
                None => None,
            },
        }
    }
}

impl ProxyConfig {
    /// Whether `host`, taken verbatim as an already-normalized hostname,
    /// bypasses the proxy under this configuration.
    pub fn should_bypass_host(&self, host: &str) -> (r: bool)
        ensures
            r == bypasses(self@, host@),
    {
        if self.exclude_simple && !contains_char(host, '.') {
            return true;
        }
        let n = self.whitelist.len();
        let mut i: usize = 0;
        while i < n
            invariant
                0 <= i <= n,
                n == self.whitelist@.len(),
                forall|j: int| 0 <= j < i ==> views_of(self.whitelist@)[j] != host@,
            decreases n - i,
        {
            if str_eq(self.whitelist[i].as_str(), host) {
                proof {
                    assert(views_of(self.whitelist@)[i as int] == host@);
                    assert(self@.whitelist.contains(host@));
                }
                return true;
            }
            proof {
                assert(views_of(self.whitelist@)[i as int] == self.whitelist@[i as int]@);
            }
            i = i + 1;
        }
        proof {
            assert(forall|j: int|
                0 <= j < self@.whitelist.len() ==> self@.whitelist[j] != host@);
            assert(!self@.whitelist.contains(host@));
        }
        let mut i: usize = 0;
        while i < n
            invariant
                0 <= i <= n,
                n == self.whitelist@.len(),
                forall|j: int| 0 <= j < i ==> !pattern_bypasses(views_of(self.whitelist@)[j], host@),
            decreases n - i,
        {
            proof {
                assert(views_of(self.whitelist@)[i as int] == self.whitelist@[i as int]@);
            }
            if pattern_matches(self.whitelist[i].as_str(), host) {
                return true;
            }
            i = i + 1;
        }
        false
    }

    /// The proxy endpoint for a destination with normalized host `host` and
    /// scheme `scheme`: `None` when the host bypasses, else the endpoint
    /// configured for the scheme, falling back to the `"*"` entry, lowercased;
    /// `None` when neither key is configured.
    pub fn proxy_for_host(&self, host: &str, scheme: &str) -> (r: Option<String>)
        ensures
            match r {
                Some(v) => proxy_for(self@, host@, scheme@) == Some(v@),
                None => proxy_for(self@, host@, scheme@) == None::<Seq<char>>,
            },
            r matches Some(v) ==> lower_of(v@) == v@,
    {
        if self.should_bypass_host(host) {
            return None;
        }
        let endpoint = match crate::text::assoc_get(&self.proxies, scheme) {
            Some(v) => v,
            None => {
                proof {
                    reveal_strlit("*");
                    assert("*"@ =~= star_key());
                }
                match crate::text::assoc_get(&self.proxies, "*") {
                    Some(v) => v,
                    None => {
                        return None;
                    },
                }
            },
        };
        Some(lowercase(endpoint.as_str()))
    }

    /// Whether destination `address` should be requested through a proxy:
    /// true exactly when its normalized host does not bypass.
    pub fn use_proxy_for_address(&self, address: &str) -> (r: bool)
        ensures
            r == !bypasses(self@, normalized_host(address@)),
    {
        let host = normalize_host(address);
        !self.should_bypass_host(host.as_str())
    }

    /// The proxy endpoint for destination `address` under scheme `scheme`.
    pub fn proxy_for_address(&self, address: &str, scheme: &str) -> (r: Option<String>)
        ensures
            match r {
                Some(v) => proxy_for(self@, normalized_host(address@), scheme@) == Some(v@),
                None => proxy_for(self@, normalized_host(address@), scheme@) == None::<Seq<char>>,
            },
            r matches Some(v) ==> lower_of(v@) == v@,
    {
        let host = normalize_host(address);
        self.proxy_for_host(host.as_str(), scheme)
    }

    /// The proxy endpoint for `url`: its serialization is the destination
    /// and its scheme selects the proxy entry.
    pub fn get_proxy_for_url(&self, url: &url::Url) -> (r: Option<String>)
        ensures
            match r {
                Some(v) => proxy_for(
                    self@,
                    normalized_host(url_str_of(*url)),
                    url_scheme_of(*url),
                ) == Some(v@),
                None => proxy_for(
                    self@,
                    normalized_host(url_str_of(*url)),
                    url_scheme_of(*url),
                ) == None::<Seq<char>>,
            },
            r matches Some(v) ==> lower_of(v@) == v@,
    {
        self.proxy_for_address(url_as_str(url), url_scheme(url))
    }
}

/// The aggregated outcome over remaining source outcomes, with the last
/// fault seen so far: the first non-empty success wins; a success whose
/// proxy mapping is empty counts as absence, never as success; a faulting
/// source is remembered but does not stop the iteration; when every source
/// is exhausted the last fault, if any, is the outcome, else absence.
pub open spec fn aggregate_from(
    outcomes: Seq<Result<Option<ProxyConfigView>, ProxyError>>,
    last_fault: Option<ProxyError>,
) -> Result<Option<ProxyConfigView>, ProxyError>
    decreases outcomes.len(),
{
    if outcomes.len() == 0 {
        match last_fault {
            Some(e) => Err(e),
            None => Ok(None),
        }
    } else {
        match outcomes[0] {
            Ok(Some(c)) => if c.proxies.len() == 0 {
                aggregate_from(outcomes.drop_first(), last_fault)
            } else {
                Ok(Some(c))
            },
            Ok(None) => aggregate_from(outcomes.drop_first(), last_fault),
            Err(e) => aggregate_from(outcomes.drop_first(), Some(e)),
        }
    }
}

/// Aggregation over an ordered list of source outcomes.  An empty list means
/// no source exists for this platform at all, which is itself a fault.
pub open spec fn aggregate(outcomes: Seq<Result<Option<ProxyConfigView>, ProxyError>>) -> Result<
    Option<ProxyConfigView>,
    ProxyError,
> {
    if outcomes.len() == 0 {
        Err(ProxyError::PlatformNotSupported)
    } else {
        aggregate_from(outcomes, None)
    }
}

/// Fold an ordered list of source outcomes into one resolution: the first
/// source that produced a non-empty configuration wins; sources that
/// reported absence, or a configuration without a single proxy entry, are
/// skipped; a fault is remembered but never blocks a later source, and
/// surfaces only when no source succeeds.
pub fn aggregate_sources(sources: &mut Vec<Result<Option<ProxyConfig>, ProxyError>>) -> (r:
    Result<Option<ProxyConfig>, ProxyError>)
    ensures
        outcome_view(r) == aggregate(outcome_views(old(sources)@)),
{
    let ghost all = outcome_views(old(sources)@);
    if sources.is_empty() {
        return Err(ProxyError::PlatformNotSupported);
    }
    let mut last_fault: Option<ProxyError> = None;
    #[verifier::loop_isolation(false)]
    while !sources.is_empty()
        invariant
            aggregate(all) == aggregate_from(outcome_views(sources@), last_fault),
        decreases sources@.len(),
    {
        let ghost rv = outcome_views(sources@);
        let head = sources.remove(0);
        proof {
            assert(outcome_views(sources@) =~= rv.drop_first());
            assert(rv[0] == outcome_view(head));
        }
        match head {
            Ok(Some(c)) => {
                if c.proxies.len() == 0 {
                    // An empty proxy mapping is never surfaced as a success.
                    proof {
                        assert(rv[0] == Ok::<Option<ProxyConfigView>, ProxyError>(Some(c@)));
                    }
                } else {
                    proof {
                        assert(rv.len() > 0);
                        assert(rv[0] == Ok::<Option<ProxyConfigView>, ProxyError>(Some(c@)));
                        assert(aggregate_from(rv, last_fault) == Ok::<
                            Option<ProxyConfigView>,
                            ProxyError,
                        >(Some(c@)));
                    }
                    return Ok(Some(c));
                }
            },
            Ok(None) => {},
            Err(e) => {
                last_fault = Some(e);
            },
        }
    }
    match last_fault {
        Some(e) => Err(e),
        None => Ok(None),
    }
}

/// The overall resolution: the environment snapshot first, then the
/// sysconfig file snapshot.
pub open spec fn resolved(
    vars: Seq<(Seq<char>, Seq<char>)>,
    file: sysconfig_proxy::FileSnapshot,
) -> Result<Option<ProxyConfigView>, ProxyError> {
    aggregate(seq![Ok(env::env_source(vars)), sysconfig_proxy::file_source(file)])
}

/// Resolve the proxy configuration from the given environment snapshot and
/// proxy-file snapshot.  The environment takes precedence; the file is
/// consulted only when the environment has nothing configured, and a faulty
/// file never hides an environment configuration.
pub fn get_proxy_config(vars: &Vec<(String, String)>, file: &sysconfig_proxy::FileSnapshot) -> (r:
    Result<Option<ProxyConfig>, ProxyError>)
    ensures
        outcome_view(r) == resolved(kv_views(vars@), *file),
{
    let env_r: Result<Option<ProxyConfig>, ProxyError> = Ok(env::get_proxy_config(vars));
    let file_r = sysconfig_proxy::get_proxy_config_from_file(file);
    let ghost ev = outcome_view(env_r);
    let ghost fv = outcome_view(file_r);
    let mut sources: Vec<Result<Option<ProxyConfig>, ProxyError>> = Vec::new();
    sources.push(env_r);
    sources.push(file_r);
    proof {
        assert(outcome_views(sources@) =~= seq![ev, fv]);
        assert(ev == Ok::<Option<ProxyConfigView>, ProxyError>(env::env_source(kv_views(vars@))));
        assert(fv == sysconfig_proxy::file_source(*file));
    }
    aggregate_sources(&mut sources)
}

/// Determinism: resolution is a pure function of the environment snapshot
/// and the file snapshot, so equal inputs always yield equal outcomes.
pub proof fn lemma_resolution_deterministic(
    vars1: Seq<(Seq<char>, Seq<char>)>,
    file1: sysconfig_proxy::FileSnapshot,
    vars2: Seq<(Seq<char>, Seq<char>)>,
    file2: sysconfig_proxy::FileSnapshot,
)
    requires
        vars1 == vars2,
        file1 == file2,
    ensures
        resolved(vars1, file1) == resolved(vars2, file2),
{
}

/// Precedence: when the environment yields a configuration, resolution
/// returns exactly that configuration, whatever the file source holds.
pub proof fn lemma_env_precedence(
    vars: Seq<(Seq<char>, Seq<char>)>,
    file: sysconfig_proxy::FileSnapshot,
    c: ProxyConfigView,
)
    requires
        env::env_source(vars) == Some(c),
    ensures
        resolved(vars, file) == Ok::<Option<ProxyConfigView>, ProxyError>(Some(c)),
{
    let outcomes = seq![
        Ok::<Option<ProxyConfigView>, ProxyError>(env::env_source(vars)),
        sysconfig_proxy::file_source(file),
    ];
    assert(outcomes[0] == Ok::<Option<ProxyConfigView>, ProxyError>(Some(c)));
}

/// What resolution amounts to with these two sources: the environment's
/// configuration when it has one, otherwise whatever the file source says.
pub proof fn lemma_resolved_characterization(
    vars: Seq<(Seq<char>, Seq<char>)>,
    file: sysconfig_proxy::FileSnapshot,
)
    ensures
        resolved(vars, file) == (match env::env_source(vars) {
            Some(c) => Ok::<Option<ProxyConfigView>, ProxyError>(Some(c)),
            None => sysconfig_proxy::file_source(file),
        }),
{
    let outcomes = seq![
        Ok::<Option<ProxyConfigView>, ProxyError>(env::env_source(vars)),
        sysconfig_proxy::file_source(file),
    ];
    assert(resolved(vars, file) == aggregate(outcomes));
    let rest = outcomes.drop_first();
    assert(rest =~= seq![sysconfig_proxy::file_source(file)]);
    assert(rest.drop_first() =~= Seq::<Result<Option<ProxyConfigView>, ProxyError>>::empty());
    assert(aggregate(outcomes) == aggregate_from(outcomes, None));
    match env::env_source(vars) {
        Some(c) => {
            assert(outcomes[0] == Ok::<Option<ProxyConfigView>, ProxyError>(Some(c)));
            assert(aggregate_from(outcomes, None) == Ok::<Option<ProxyConfigView>, ProxyError>(
                Some(c),
            ));
        },
        None => {
            assert(outcomes[0] == Ok::<Option<ProxyConfigView>, ProxyError>(None));
            assert(aggregate_from(outcomes, None) == aggregate_from(rest, None));
            assert(rest[0] == sysconfig_proxy::file_source(file));
            match sysconfig_proxy::file_source(file) {
                Ok(c) => {
                    if c is None {
                        assert(aggregate_from(rest, None) == aggregate_from(
                            rest.drop_first(),
                            None,
                        ));
                        assert(aggregate_from(rest.drop_first(), None) == Ok::<
                            Option<ProxyConfigView>,
                            ProxyError,
                        >(None));
                    } else {
                        assert(aggregate_from(rest, None) == Ok::<
                            Option<ProxyConfigView>,
                            ProxyError,
                        >(c));
                    }
                },
                Err(f) => {
                    assert(aggregate_from(rest, None) == aggregate_from(
                        rest.drop_first(),
                        Some(f),
                    ));
                    assert(aggregate_from(rest.drop_first(), Some(f)) == Err::<
                        Option<ProxyConfigView>,
                        ProxyError,
                    >(f));
                },
            }
        },
    }
}

/// A fault surfaces only when no source succeeds: resolution is a fault
/// exactly when the environment has nothing configured and the file source
/// faulted.
pub proof fn lemma_fault_only_when_nothing_succeeds(
    vars: Seq<(Seq<char>, Seq<char>)>,
    file: sysconfig_proxy::FileSnapshot,
    e: ProxyError,
)
    ensures
        resolved(vars, file) == Err::<Option<ProxyConfigView>, ProxyError>(e) <==> (
        env::env_source(vars) is None && sysconfig_proxy::file_source(file) == Err::<
            Option<ProxyConfigView>,
            ProxyError,
        >(e)),
{
    lemma_resolved_characterization(vars, file);
}

/// Absence means absence everywhere: resolution reports nothing configured
/// exactly when the environment is unconfigured and the file reports absence.
pub proof fn lemma_absent_iff_both_absent(
    vars: Seq<(Seq<char>, Seq<char>)>,
    file: sysconfig_proxy::FileSnapshot,
)
    ensures
        resolved(vars, file) == Ok::<Option<ProxyConfigView>, ProxyError>(None) <==> (
        env::env_source(vars) is None && sysconfig_proxy::file_source(file) == Ok::<
            Option<ProxyConfigView>,
            ProxyError,
        >(None)),
{
    lemma_resolved_characterization(vars, file);
}

proof fn lemma_aggregate_from_success_nonempty(
    outcomes: Seq<Result<Option<ProxyConfigView>, ProxyError>>,
    last_fault: Option<ProxyError>,
    c: ProxyConfigView,
)
    requires
        aggregate_from(outcomes, last_fault) == Ok::<Option<ProxyConfigView>, ProxyError>(
            Some(c),
        ),
    ensures
        c.proxies.len() > 0,
    decreases outcomes.len(),
{
    if outcomes.len() > 0 {
        match outcomes[0] {
            Ok(Some(c0)) => {
                if c0.proxies.len() == 0 {
                    lemma_aggregate_from_success_nonempty(outcomes.drop_first(), last_fault, c);
                }
            },
            Ok(None) => {
                lemma_aggregate_from_success_nonempty(outcomes.drop_first(), last_fault, c);
            },
            Err(e) => {
                lemma_aggregate_from_success_nonempty(outcomes.drop_first(), Some(e), c);
            },
        }
    }
}

/// The aggregator never surfaces an empty proxy mapping: whatever the
/// injected sources returned, a successful aggregation carries at least one
/// proxy entry.
pub proof fn lemma_aggregate_success_nonempty(
    outcomes: Seq<Result<Option<ProxyConfigView>, ProxyError>>,
    c: ProxyConfigView,
)
    requires
        aggregate(outcomes) == Ok::<Option<ProxyConfigView>, ProxyError>(Some(c)),
    ensures
        c.proxies.len() > 0,
{
    if outcomes.len() > 0 {
        lemma_aggregate_from_success_nonempty(outcomes, None, c);
    }
}

/// Resolution never surfaces a configuration without proxy entries: "no
/// proxy entries found" is absence, not an empty success.
pub proof fn lemma_success_has_proxies(
    vars: Seq<(Seq<char>, Seq<char>)>,
    file: sysconfig_proxy::FileSnapshot,
    c: ProxyConfigView,
)
    requires
        resolved(vars, file) == Ok::<Option<ProxyConfigView>, ProxyError>(Some(c)),
    ensures
        c.proxies.len() > 0,
{
    let outcomes = seq![
        Ok::<Option<ProxyConfigView>, ProxyError>(env::env_source(vars)),
        sysconfig_proxy::file_source(file),
    ];
    lemma_aggregate_success_nonempty(outcomes, c);
}

/// Wildcard suffix rule: a whitelist pattern whose rightmost `*` is followed
/// by a non-empty suffix bypasses every host that ends with that suffix.
pub proof fn lemma_wildcard_suffix_bypasses(c: ProxyConfigView, k: int, i: int, host: Seq<char>)
    requires
        0 <= k < c.whitelist.len(),
        0 <= i,
        i + 1 < c.whitelist[k].len(),
        c.whitelist[k][i] == '*',
        forall|j: int| i < j < c.whitelist[k].len() ==> c.whitelist[k][j] != '*',
        ends_with(host, c.whitelist[k].subrange(i + 1, c.whitelist[k].len() as int)),
    ensures
        pattern_bypasses(c.whitelist[k], host),
        bypasses(c, host),
{
    let p = c.whitelist[k];
    assert(0 <= i < p.len() && p[i] == '*' && (forall|j: int| i < j < p.len() ==> p[j] != '*') && i
        + 1 < p.len() && ends_with(host, p.subrange(i + 1, p.len() as int)));
}

/// Empty-suffix rule: a pattern whose rightmost `*` is its final character
/// has an empty suffix and bypasses no host at all by the wildcard rule.
pub proof fn lemma_trailing_star_matches_nothing(p: Seq<char>, host: Seq<char>)
    requires
        p.len() > 0,
        p[p.len() - 1] == '*',
    ensures
        !pattern_bypasses(p, host),
{
    assert forall|i: int|
        !(0 <= i < p.len() && #[trigger] p[i] == '*' && (forall|j: int|
            i < j < p.len() ==> p[j] != '*') && i + 1 < p.len() && ends_with(
            host,
            p.subrange(i + 1, p.len() as int),
        )) by {
        if 0 <= i < p.len() && p[i] == '*' && (forall|j: int| i < j < p.len() ==> p[j] != '*') && i
            + 1 < p.len() {
            assert(p[p.len() - 1] != '*');
        }
    }
}

/// A pattern without any `*` bypasses no host by the wildcard rule; it can
/// bypass only as an exact whitelist member.
pub proof fn lemma_starless_pattern_matches_nothing(p: Seq<char>, host: Seq<char>)
    requires
        forall|i: int| 0 <= i < p.len() ==> p[i] != '*',
    ensures
        !pattern_bypasses(p, host),
{
}

/// Dotless bypass: with `exclude_simple` set, every host without a dot
/// bypasses the proxy, whatever the whitelist holds.
pub proof fn lemma_dotless_bypasses(c: ProxyConfigView, host: Seq<char>)
    requires
        c.exclude_simple,
        !has_char(host, '.'),
    ensures
        bypasses(c, host),
{
}

/// With an empty whitelist, a host that has a dot never bypasses, even with
/// `exclude_simple` set.
pub proof fn lemma_dotted_host_uses_proxy(c: ProxyConfigView, host: Seq<char>)
    requires
        c.whitelist.len() == 0,
        has_char(host, '.'),
    ensures
        !bypasses(c, host),
{
    assert(!c.whitelist.contains(host));
}

/// Scheme fallback: a destination that does not bypass and whose scheme has
/// no proxy entry gets the `"*"` entry, lowercased.
pub proof fn lemma_scheme_fallback(
    c: ProxyConfigView,
    host: Seq<char>,
    scheme: Seq<char>,
    v: Seq<char>,
)
    requires
        !bypasses(c, host),
        lookup_kv(c.proxies, scheme) == None::<Seq<char>>,
        lookup_kv(c.proxies, star_key()) == Some(v),
    ensures
        proxy_for(c, host, scheme) == Some(lower_of(v)),
{
}

/// A bypassing destination never gets a proxy endpoint.
pub proof fn lemma_bypass_means_direct(c: ProxyConfigView, host: Seq<char>, scheme: Seq<char>)
    requires
        bypasses(c, host),
    ensures
        proxy_for(c, host, scheme) == None::<Seq<char>>,
{
}

/// The whitelist acts as a set: two configurations whose whitelists hold the
/// same entries, in any order and multiplicity, decide bypass alike.
pub proof fn lemma_whitelist_order_irrelevant(
    c1: ProxyConfigView,
    c2: ProxyConfigView,
    host: Seq<char>,
)
    requires
        c1.whitelist.to_set() == c2.whitelist.to_set(),
        c1.exclude_simple == c2.exclude_simple,
    ensures
        bypasses(c1, host) == bypasses(c2, host),
{
    assert(c1.whitelist.contains(host) == c2.whitelist.contains(host)) by {
        assert(c1.whitelist.to_set().contains(host) == c1.whitelist.contains(host));
        assert(c2.whitelist.to_set().contains(host) == c2.whitelist.contains(host));
        assert(c1.whitelist.to_set().contains(host) == c2.whitelist.to_set().contains(host));
    }
    assert forall|i: int|
        0 <= i < c1.whitelist.len() && pattern_bypasses(
            #[trigger] c1.whitelist[i],
            host,
        ) implies exists|k: int|
        0 <= k < c2.whitelist.len() && pattern_bypasses(#[trigger] c2.whitelist[k], host) by {
        let p = c1.whitelist[i];
        assert(c1.whitelist.to_set().contains(p));
        assert(c2.whitelist.contains(p));
        let k = choose|k: int| 0 <= k < c2.whitelist.len() && c2.whitelist[k] == p;
        assert(pattern_bypasses(c2.whitelist[k], host));
    }
    assert forall|i: int|
        0 <= i < c2.whitelist.len() && pattern_bypasses(
            #[trigger] c2.whitelist[i],
            host,
        ) implies exists|k: int|
        0 <= k < c1.whitelist.len() && pattern_bypasses(#[trigger] c1.whitelist[k], host) by {
        let p = c2.whitelist[i];
        assert(c2.whitelist.to_set().contains(p));
        assert(c1.whitelist.contains(p));
        let k = choose|k: int| 0 <= k < c1.whitelist.len() && c1.whitelist[k] == p;
        assert(pattern_bypasses(c1.whitelist[k], host));
    }
}

/// The hostname the matcher judges for `address`: the URL host component
/// when one exists, the whole string otherwise, lowercased.
fn normalize_host(address: &str) -> (r: String)
    ensures
        r@ == normalized_host(address@),
        lower_of(r@) == r@,
{
    let host_raw: String = match parse_url_host(address) {
        Some(h) => h,
        None => address.to_owned(),
    };
    lowercase(host_raw.as_str())
}

} // verus!
