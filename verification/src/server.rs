//! Which servers the wallet talks to, and how.
use crate::config::Config;
use crate::text::{begins_with, chars_of, is_part_at, part_at, starts_with, str_eq};
use vstd::prelude::*;

verus! {

/// Where the authority of a URL begins: behind the first `://` from position `k` on, or at the
/// very start of a URL that has none.
pub open spec fn authority_start(url: Seq<char>, k: int) -> int
    decreases url.len() - k,
{
    if k > url.len() - 3 {
        0
    } else if is_part_at(url, "://"@, k) {
        k + 3
    } else {
        authority_start(url, k + 1)
    }
}

/// The character ends the authority of a URL.
pub open spec fn ends_authority(c: char) -> bool {
    c == '/' || c == '?' || c == '#'
}

/// Where the authority that begins at or before `k` ends.
pub open spec fn authority_end(url: Seq<char>, k: int) -> int
    decreases url.len() - k,
{
    if k >= url.len() || ends_authority(url[k]) {
        k
    } else {
        authority_end(url, k + 1)
    }
}

/// Where the host begins in the authority from `low` to `high`: behind its last `@`.
pub open spec fn host_start(url: Seq<char>, low: int, high: int) -> int
    decreases high - low,
{
    if high <= low {
        low
    } else if url[high - 1] == '@' {
        high
    } else {
        host_start(url, low, high - 1)
    }
}

/// Where the digits at the end of the text from `low` to `high` begin.
pub open spec fn digits_start(url: Seq<char>, low: int, high: int) -> int
    decreases high - low,
{
    if high > low && '0' <= url[high - 1] <= '9' {
        digits_start(url, low, high - 1)
    } else {
        high
    }
}

/// Where the host that begins at `low` ends in an authority that ends at `high`: before the
/// colon and the digits of a port.
pub open spec fn host_end(url: Seq<char>, low: int, high: int) -> int {
    let digits = digits_start(url, low, high);
    if digits > low && url[digits - 1] == ':' {
        digits - 1
    } else {
        high
    }
}

/// The host a URL names.
pub open spec fn host_of(url: Seq<char>) -> Seq<char> {
    let low = authority_start(url, 0);
    let high = authority_end(url, low);
    let host = host_start(url, low, high);
    url.subrange(host, host_end(url, host, high))
}

/// A URL whose host is this machine.
pub open spec fn is_local(url: Seq<char>) -> bool {
    ||| host_of(url) == "localhost"@
    ||| host_of(url) == "127.0.0.1"@
    ||| host_of(url) == "[::1]"@
}

/// A URL with transport security.
pub open spec fn is_https(url: Seq<char>) -> bool {
    begins_with(url, "https://"@)
}

/// The host a URL names: the authority behind `://`, without user and port.
pub fn url_host(url: &str) -> (host: &str)
    ensures
        host@ == host_of(url@),
{
    let cs = chars_of(url);
    let n: usize = cs.len();
    let mark = chars_of("://");
    proof {
        reveal_strlit("://");
    }
    let mut low: usize = 0;
    let mut k: usize = 0;
    while n >= 3 && k <= n - 3 && low == 0
        invariant
            n == cs@.len(),
            cs@ == url@,
            mark@ == "://"@,
            mark@.len() == 3,
            low == 0 ==> authority_start(url@, 0) == authority_start(url@, k as int),
            low != 0 ==> authority_start(url@, 0) == low && low <= n,
        decreases n - k,
    {
        if part_at(&cs, &mark, k) {
            low = k + 3;
        }
        k += 1;
    }
    let mut high: usize = low;
    while high < n && cs[high] != '/' && cs[high] != '?' && cs[high] != '#'
        invariant
            low <= high <= n,
            n == cs@.len(),
            cs@ == url@,
            authority_end(url@, low as int) == authority_end(url@, high as int),
        decreases n - high,
    {
        high += 1;
    }
    let mut host: usize = high;
    while host > low && cs[host - 1] != '@'
        invariant
            low <= host <= high <= n,
            n == cs@.len(),
            cs@ == url@,
            host_start(url@, low as int, high as int) == host_start(url@, low as int, host as int),
        decreases host,
    {
        host -= 1;
    }
    let mut digits: usize = high;
    while digits > host && '0' <= cs[digits - 1] && cs[digits - 1] <= '9'
        invariant
            host <= digits <= high <= n,
            n == cs@.len(),
            cs@ == url@,
            digits_start(url@, host as int, high as int) == digits_start(
                url@,
                host as int,
                digits as int,
            ),
        decreases digits,
    {
        digits -= 1;
    }
    if digits > host && cs[digits - 1] == ':' {
        url.substring_char(host, digits - 1)
    } else {
        url.substring_char(host, high)
    }
}

/// Whether a URL is one of this machine.
pub fn is_loopback(url: &str) -> (local: bool)
    ensures
        local == is_local(url@),
{
    let host = url_host(url);
    str_eq(host, "localhost") || str_eq(host, "127.0.0.1") || str_eq(host, "[::1]")
}

/// Whether a server URL may be configured: remote servers in the clear are refused.
pub fn url_allowed(url: &str) -> (allowed: bool)
    ensures
        allowed == (is_https(url@) || is_local(url@)),
{
    starts_with(url, "https://") || is_loopback(url)
}

/// How the connection to the configured server is secured.
#[derive(Debug, Clone, Copy, PartialEq, Eq, Structural)]
pub enum TlsStatus {
    /// Transport security with a pinned certificate, or on this machine.
    Secured,
    /// In the clear on this machine.
    LocalCleartext,
    /// Transport security to a remote server without a pinned certificate.
    PinMissing,
    /// In the clear to a remote server.
    CleartextRefused,
}

impl TlsStatus {
    /// The status is one the wallet connects with.
    pub open spec fn ok(self) -> bool {
        self == TlsStatus::Secured || self == TlsStatus::LocalCleartext
    }
}

/// The status of a URL with or without a certificate pin.
pub open spec fn tls_status_of(url: Seq<char>, pinned: bool) -> TlsStatus {
    if is_https(url) {
        if pinned || is_local(url) {
            TlsStatus::Secured
        } else {
            TlsStatus::PinMissing
        }
    } else if is_local(url) {
        TlsStatus::LocalCleartext
    } else {
        TlsStatus::CleartextRefused
    }
}

/// How the connection to the configured server is secured.
pub fn tls_status(config: &Config) -> (status: TlsStatus)
    ensures
        status == tls_status_of(config.server_url@, config.tls_pin_sha256 is Some),
{
    let local = is_loopback(config.server_url.as_str());
    if starts_with(config.server_url.as_str(), "https://") {
        if config.tls_pin_sha256.is_some() || local {
            TlsStatus::Secured
        } else {
            TlsStatus::PinMissing
        }
    } else if local {
        TlsStatus::LocalCleartext
    } else {
        TlsStatus::CleartextRefused
    }
}

/// Whether traffic to the configured server goes through Tor: all remote traffic does unless Tor
/// is switched off, and traffic on this machine never does.
pub fn through_tor(config: &Config) -> (tor: bool)
    ensures
        tor == (config.use_tor && !is_local(config.server_url@)),
{
    config.use_tor && !is_loopback(config.server_url.as_str())
}

impl Config {
    /// Takes over a new server URL and a new network. A remote server in the clear is refused,
    /// and nothing is taken over.
    pub fn update(&mut self, server_url: Option<String>, network: Option<String>) -> (taken: bool)
        ensures
            taken == (server_url matches Some(u) ==> is_https(u@) || is_local(u@)),
            !taken ==> *final(self) == *old(self),
            taken ==> *final(self) == (Config {
                server_url: match server_url {
                    Some(u) => u,
                    None => old(self).server_url,
                },
                network: match network {
                    Some(n) => n,
                    None => old(self).network,
                },
                ..*old(self)
            }),
    {
        if let Some(url) = &server_url {
            if !url_allowed(url.as_str()) {
                return false;
            }
        }
        if let Some(url) = server_url {
            self.server_url = url;
        }
        if let Some(name) = network {
            self.network = name;
        }
        true
    }
}

proof fn lemma_authority_start(url: Seq<char>, k: int, m: int)
    requires
        0 <= k <= m,
        is_part_at(url, "://"@, m),
        forall|j: int| k <= j < m ==> url[j] != ':',
    ensures
        authority_start(url, k) == m + 3,
    decreases m - k,
{
    reveal_strlit("://");
    if k < m {
        if is_part_at(url, "://"@, k) {
            assert(url.subrange(k, k + 3)[0] == ':');
        }
        lemma_authority_start(url, k + 1, m);
    }
}

proof fn lemma_authority_end(url: Seq<char>, k: int, m: int)
    requires
        0 <= k <= m <= url.len(),
        m == url.len() || ends_authority(url[m]),
        forall|j: int| k <= j < m ==> !ends_authority(#[trigger] url[j]),
    ensures
        authority_end(url, k) == m,
    decreases m - k,
{
    if k < m {
        lemma_authority_end(url, k + 1, m);
    }
}

proof fn lemma_host_start(url: Seq<char>, low: int, m: int, high: int)
    requires
        0 <= low <= m <= high <= url.len(),
        m == low || url[m - 1] == '@',
        forall|j: int| m <= j < high ==> url[j] != '@',
    ensures
        host_start(url, low, high) == m,
    decreases high - m,
{
    if m < high {
        lemma_host_start(url, low, m, high - 1);
    }
}

proof fn lemma_digits_start(url: Seq<char>, low: int, m: int, high: int)
    requires
        0 <= low <= m <= high <= url.len(),
        m == low || !('0' <= url[m - 1] <= '9'),
        forall|j: int| m <= j < high ==> '0' <= #[trigger] url[j] <= '9',
    ensures
        digits_start(url, low, high) == m,
    decreases high - m,
{
    if m < high {
        lemma_digits_start(url, low, m, high - 1);
    }
}

proof fn lemma_digits_bounds(url: Seq<char>, low: int, high: int)
    requires
        low <= high,
    ensures
        low <= digits_start(url, low, high) <= high,
    decreases high - low,
{
    if high > low {
        lemma_digits_bounds(url, low, high - 1);
    }
}

/// The host of a URL is what stands between the user and the port, whatever scheme, user, port,
/// path and query surround it.
pub proof fn law_host_is_read(
    scheme: Seq<char>,
    user: Seq<char>,
    host: Seq<char>,
    port: Seq<char>,
    rest: Seq<char>,
)
    requires
        !scheme.contains(':'),
        user.len() == 0 || user.last() == '@',
        forall|j: int| 0 <= j < user.len() ==> !ends_authority(#[trigger] user[j]),
        forall|j: int|
            0 <= j < host.len() ==> !ends_authority(#[trigger] host[j]) && host[j] != '@',
        !host.contains(':') || host.last() == ']',
        port.len() == 0 || port[0] == ':',
        forall|j: int| 1 <= j < port.len() ==> '0' <= #[trigger] port[j] <= '9',
        rest.len() == 0 || ends_authority(rest[0]),
    ensures
        host_of(scheme + "://"@ + user + host + port + rest) == host,
{
    reveal_strlit("://");
    let url = scheme + "://"@ + user + host + port + rest;
    let m = scheme.len() as int;
    let low = m + 3;
    let at = low + user.len();
    let end = at + host.len();
    let high = end + port.len();
    assert forall|j: int| 0 <= j < m implies url[j] != ':' by {
        assert(url[j] == scheme[j]);
        assert(scheme.contains(scheme[j]));
    }
    assert(url.subrange(m, m + 3) =~= "://"@);
    lemma_authority_start(url, 0, m);
    assert forall|j: int| low <= j < at implies url[j] == user[j - low] by {}
    assert forall|j: int| at <= j < end implies url[j] == host[j - at] by {}
    assert forall|j: int| end <= j < high implies url[j] == port[j - end] by {}
    assert forall|j: int| low <= j < high implies !ends_authority(#[trigger] url[j]) by {
        if j < at {
            assert(url[j] == user[j - low]);
        } else if j < end {
            assert(url[j] == host[j - at]);
        } else {
            assert(url[j] == port[j - end]);
        }
    }
    if rest.len() > 0 {
        assert(url[high] == rest[0]);
    }
    lemma_authority_end(url, low, high);
    lemma_host_start(url, low, at, high);
    if port.len() > 0 {
        assert(url[end] == ':');
        lemma_digits_start(url, at, end + 1, high);
    } else {
        lemma_digits_bounds(url, at, high);
        let digits = digits_start(url, at, high);
        if digits > at {
            assert(url[digits - 1] == host[digits - 1 - at]);
            if host.contains(':') {
                assert(url[high - 1] == host.last());
            }
        }
    }
    assert(url.subrange(at, end) =~= host);
}

/// A remote server is connected to only with transport security and a pinned certificate.
pub proof fn law_remote_needs_pinned_tls(url: Seq<char>, pinned: bool)
    requires
        !is_local(url),
    ensures
        tls_status_of(url, pinned).ok() == (is_https(url) && pinned),
{
}

/// A server that may be configured is never a remote one in the clear.
pub proof fn law_allowed_is_never_remote_cleartext(url: Seq<char>, pinned: bool)
    ensures
        (is_https(url) || is_local(url)) == (tls_status_of(url, pinned)
            != TlsStatus::CleartextRefused),
{
}

/// The host of a URL without a scheme is what stands at its start, before the port.
pub proof fn law_host_without_scheme(host: Seq<char>, port: Seq<char>, rest: Seq<char>)
    requires
        forall|j: int|
            0 <= j < host.len() ==> !ends_authority(#[trigger] host[j]) && host[j] != '@',
        !host.contains(':') || host.last() == ']',
        port.len() == 0 || port[0] == ':',
        forall|j: int| 1 <= j < port.len() ==> '0' <= #[trigger] port[j] <= '9',
        rest.len() == 0 || ends_authority(rest[0]),
        !(exists|k: int| #[trigger] is_part_at(host + port + rest, "://"@, k)),
    ensures
        host_of(host + port + rest) == host,
{
    reveal_strlit("://");
    let url = host + port + rest;
    let end = host.len() as int;
    let high = end + port.len();
    lemma_no_scheme(url, 0);
    assert forall|j: int| 0 <= j < end implies url[j] == host[j] by {}
    assert forall|j: int| end <= j < high implies url[j] == port[j - end] by {}
    assert forall|j: int| 0 <= j < high implies !ends_authority(#[trigger] url[j]) by {
        if j < end {
            assert(url[j] == host[j]);
        } else {
            assert(url[j] == port[j - end]);
        }
    }
    if rest.len() > 0 {
        assert(url[high] == rest[0]);
    }
    lemma_authority_end(url, 0, high);
    lemma_host_start(url, 0, 0, high);
    if port.len() > 0 {
        assert(url[end] == ':');
        lemma_digits_start(url, 0, end + 1, high);
    } else {
        lemma_digits_bounds(url, 0, high);
        let digits = digits_start(url, 0, high);
        if digits > 0 {
            assert(url[digits - 1] == host[digits - 1]);
            if host.contains(':') {
                assert(url[high - 1] == host.last());
            }
        }
    }
    assert(url.subrange(0, end) =~= host);
}

proof fn lemma_no_scheme(url: Seq<char>, k: int)
    requires
        0 <= k,
        !(exists|j: int| #[trigger] is_part_at(url, "://"@, j)),
    ensures
        authority_start(url, k) == 0,
    decreases url.len() - k,
{
    if k <= url.len() - 3 {
        lemma_no_scheme(url, k + 1);
    }
}

/// The authority of a URL ends at a slash, a question mark or a hash sign.
pub proof fn law_authority_ends(c: char)
    ensures
        ends_authority(c) <==> seq!['/', '?', '#'].contains(c),
{
    let all = seq!['/', '?', '#'];
    assert(all[0] == '/' && all[1] == '?' && all[2] == '#');
}

/// A URL is local exactly where its host is one of the three names of this machine, and has
/// transport security exactly where it begins with `https://`. It is talked to where it is local,
/// or has transport security and a pinned certificate.
pub proof fn law_which_servers(url: Seq<char>, pinned: bool)
    ensures
        is_local(url) <==> seq!["localhost"@, "127.0.0.1"@, "[::1]"@].contains(host_of(url)),
        is_https(url) <==> url.len() >= 8 && url.take(8) == "https://"@,
        tls_status_of(url, pinned) == TlsStatus::Secured <==> is_https(url) && (pinned || is_local(
            url,
        )),
        tls_status_of(url, pinned) == TlsStatus::LocalCleartext <==> !is_https(url) && is_local(url),
        tls_status_of(url, pinned) == TlsStatus::PinMissing <==> is_https(url) && !pinned
            && !is_local(url),
        tls_status_of(url, pinned) == TlsStatus::CleartextRefused <==> !is_https(url) && !is_local(
            url,
        ),
        tls_status_of(url, pinned).ok() <==> is_local(url) || (is_https(url) && pinned),
{
    reveal_strlit("https://");
    let all = seq!["localhost"@, "127.0.0.1"@, "[::1]"@];
    assert(all[0] == "localhost"@ && all[1] == "127.0.0.1"@ && all[2] == "[::1]"@);
}

} // verus!
