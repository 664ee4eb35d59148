//! Ports and the local server addresses that development servers print.
use vstd::prelude::*;

use crate::text::{
    chars_of, decimal, decimal_chars, is_digit, lemma_decimal_reads_back, unsigned_digits, has_prefix, is_control, is_control_char, is_space,
    is_whitespace, occurs_at, occurs_at_exec, parse_u16, parse_u16_spec, push_chars, slice_chars,
    starts_with, string_of,
};

verus! {

/// A TCP port number; never zero.
#[derive(Debug, Clone, Copy, PartialEq, Eq, Structural, Hash)]
pub struct Port(u16);

impl View for Port {
    type V = u16;

    closed spec fn view(&self) -> u16 {
        self.0
    }
}

impl Port {
    #[verifier::type_invariant]
    spec fn is_nonzero(self) -> bool {
        self.0 > 0
    }

    /// The port `value`, or `None` for zero.
    pub fn new(value: u16) -> (r: Option<Port>)
        ensures
            r is Some <==> value > 0,
            r matches Some(p) ==> p@ == value,
    {
        if value > 0 {
            Some(Port(value))
        } else {
            None
        }
    }

    /// The number of this port.
    pub fn value(self) -> (r: u16)
        ensures
            r == self@,
            r > 0,
    {
        proof {
            use_type_invariant(self);
        }
        self.0
    }
}

/// A port is its number: two ports with the same number are the same port, so the port
/// that `Port::new` makes from `value()` is the port itself.
pub proof fn lemma_port_is_its_number(a: Port, b: Port)
    requires
        a@ == b@,
    ensures
        a == b,
{
}

/// An address on this machine at which a development server answers, and its port.
#[derive(Debug, PartialEq, Eq)]
pub struct LocalServerUrl {
    address: String,
    port: Port,
}

impl View for LocalServerUrl {
    /// The address text and the port number.
    type V = (Seq<char>, u16);

    closed spec fn view(&self) -> (Seq<char>, u16) {
        (self.address@, self.port@)
    }
}

impl Clone for LocalServerUrl {
    /// The same address and port.
    fn clone(&self) -> (r: Self)
        ensures
            r@ == self@,
    {
        proof {
            use_type_invariant(self);
        }
        LocalServerUrl { address: self.address.clone(), port: self.port }
    }
}

impl LocalServerUrl {
    #[verifier::type_invariant]
    spec fn has_local_shape(self) -> bool {
        is_local_server_url(self@)
    }

    /// The address, ready to open in a browser.
    pub fn address(&self) -> (r: &str)
        ensures
            r@ == self@.0,
            is_local_server_url(self@),
    {
        proof {
            use_type_invariant(self);
        }
        self.address.as_str()
    }

    /// The port the server listens on.
    pub fn port(&self) -> (r: Port)
        ensures
            r@ == self@.1,
            is_local_server_url(self@),
    {
        proof {
            use_type_invariant(self);
        }
        self.port
    }
}

/// The escape character that starts a terminal control sequence.
pub open spec fn escape() -> char {
    '\u{1b}'
}

/// The index just past the control sequence introduced by `ESC [` whose parameters start at
/// `j`: past the first character in `@`..`~`, or the end of `s`.
pub open spec fn csi_end(s: Seq<char>, j: int) -> int
    decreases s.len() - j,
{
    if j < 0 || j >= s.len() {
        s.len() as int
    } else if '@' <= s[j] && s[j] <= '~' {
        j + 1
    } else {
        csi_end(s, j + 1)
    }
}

/// The index just past the operating system command introduced by `ESC ]` whose text starts
/// at `j`: past a BEL, past an `ESC \`, or the end of `s`.
pub open spec fn osc_end(s: Seq<char>, j: int) -> int
    decreases s.len() - j,
{
    if j < 0 || j >= s.len() {
        s.len() as int
    } else if s[j] == '\u{7}' {
        j + 1
    } else if s[j] == escape() && j + 1 < s.len() && s[j + 1] == '\\' {
        j + 2
    } else {
        osc_end(s, j + 1)
    }
}

pub proof fn lemma_csi_end_bounds(s: Seq<char>, j: int)
    requires
        0 <= j <= s.len(),
    ensures
        j <= csi_end(s, j) <= s.len(),
    decreases s.len() - j,
{
    if j < s.len() && !('@' <= s[j] && s[j] <= '~') {
        lemma_csi_end_bounds(s, j + 1);
    }
}

pub proof fn lemma_osc_end_bounds(s: Seq<char>, j: int)
    requires
        0 <= j <= s.len(),
    ensures
        j <= osc_end(s, j) <= s.len(),
    decreases s.len() - j,
{
    if j < s.len() && s[j] != '\u{7}' && !(s[j] == escape() && j + 1 < s.len() && s[j + 1]
        == '\\') {
        lemma_osc_end_bounds(s, j + 1);
    }
}

/// The text of `s` from index `i` on, without terminal escape sequences: `ESC [ .. final`
/// (colours and cursor moves), `ESC ] .. BEL` or `ESC ] .. ESC \` (titles, links) and any other
/// `ESC x` pair are dropped; everything else is kept in order.
pub open spec fn strip_from(s: Seq<char>, i: int) -> Seq<char>
    decreases s.len() - i,
{
    if i < 0 || i >= s.len() {
        seq![]
    } else if s[i] != escape() {
        seq![s[i]] + strip_from(s, i + 1)
    } else if i + 1 >= s.len() {
        seq![]
    } else if s[i + 1] == '[' {
        proof {
            lemma_csi_end_bounds(s, i + 2);
        }
        strip_from(s, csi_end(s, i + 2))
    } else if s[i + 1] == ']' {
        proof {
            lemma_osc_end_bounds(s, i + 2);
        }
        strip_from(s, osc_end(s, i + 2))
    } else {
        strip_from(s, i + 2)
    }
}

/// `s` without terminal escape sequences.
pub open spec fn strip_escapes(s: Seq<char>) -> Seq<char> {
    strip_from(s, 0)
}

fn csi_end_exec(s: &[char], j: usize) -> (r: usize)
    requires
        j <= s@.len(),
    ensures
        r == csi_end(s@, j as int),
{
    let mut k = j;
    while k < s.len() && !('@' <= s[k] && s[k] <= '~')
        invariant
            j <= k <= s@.len(),
            csi_end(s@, j as int) == csi_end(s@, k as int),
        decreases s@.len() - k,
    {
        k = k + 1;
    }
    if k < s.len() {
        k + 1
    } else {
        k
    }
}

fn osc_end_exec(s: &[char], j: usize) -> (r: usize)
    requires
        j <= s@.len(),
    ensures
        r == osc_end(s@, j as int),
{
    let mut k = j;
    while k < s.len()
        invariant
            j <= k <= s@.len(),
            osc_end(s@, j as int) == osc_end(s@, k as int),
        decreases s@.len() - k,
    {
        if s[k] == '\u{7}' {
            return k + 1;
        }
        if s[k] == '\u{1b}' && k + 1 < s.len() && s[k + 1] == '\\' {
            return k + 2;
        }
        k = k + 1;
    }
    k
}

/// `text` without terminal escape sequences (see `strip_from`).
pub fn strip_terminal_sequences(text: &[char]) -> (clean: Vec<char>)
    ensures
        clean@ == strip_escapes(text@),
        !clean@.contains(escape()),
        is_subsequence(clean@, text@),
        !text@.contains(escape()) ==> clean@ == text@,
        strip_escapes(clean@) == clean@,
{
    proof {
        lemma_strip_removes_escapes(text@);
        lemma_strip_keeps_a_subsequence(text@);
        lemma_strip_twice(text@);
        if !text@.contains(escape()) {
            lemma_strip_keeps_plain_text(text@);
        }
    }
    let mut clean: Vec<char> = Vec::new();
    let mut i: usize = 0;
    while i < text.len()
        invariant
            i <= text@.len(),
            strip_escapes(text@) == clean@ + strip_from(text@, i as int),
        decreases text@.len() - i,
    {
        let c = text[i];
        if c != '\u{1b}' {
            clean.push(c);
            i = i + 1;
        } else if i + 1 >= text.len() {
            i = i + 1;
        } else if text[i + 1] == '[' {
            proof {
                lemma_csi_end_bounds(text@, i + 2);
            }
            let next = csi_end_exec(text, i + 2);
            i = next;
        } else if text[i + 1] == ']' {
            proof {
                lemma_osc_end_bounds(text@, i + 2);
            }
            let next = osc_end_exec(text, i + 2);
            i = next;
        } else {
            i = i + 2;
        }
    }
    assert(strip_from(text@, i as int) =~= seq![]);
    assert(clean@ + seq![] =~= clean@);
    clean
}

/// `http://`
pub open spec fn http_scheme() -> Seq<char> {
    seq!['h', 't', 't', 'p', ':', '/', '/']
}

/// `https://`
pub open spec fn https_scheme() -> Seq<char> {
    seq!['h', 't', 't', 'p', 's', ':', '/', '/']
}

/// Whether an `http://` or `https://` address starts at index `i` of `s`.
pub open spec fn scheme_at(s: Seq<char>, i: int) -> bool {
    has_prefix(s.skip(i), http_scheme()) || has_prefix(s.skip(i), https_scheme())
}

/// The first index from `from` on at which an address starts.
pub open spec fn next_scheme(s: Seq<char>, from: int) -> Option<int>
    decreases s.len() - from,
{
    if from < 0 || from >= s.len() {
        None
    } else if scheme_at(s, from) {
        Some(from)
    } else {
        next_scheme(s, from + 1)
    }
}

/// The characters that end an address in running text: white space, control characters,
/// quotes and angle brackets.
pub open spec fn ends_address(c: char) -> bool {
    is_space(c) || is_control_char(c) || c == '"' || c == '\'' || c == '<' || c == '>'
}

/// The first index from `from` on that holds a character ending an address, or the length.
pub open spec fn address_end(s: Seq<char>, from: int) -> int
    decreases s.len() - from,
{
    if from < 0 || from >= s.len() {
        s.len() as int
    } else if ends_address(s[from]) {
        from
    } else {
        address_end(s, from + 1)
    }
}

/// Punctuation that closes a sentence or a bracket around an address rather than belonging
/// to it.
pub open spec fn is_trailing_punctuation(c: char) -> bool {
    c == '.' || c == ',' || c == ';' || c == ')' || c == ']' || c == '}'
}

/// `t` without trailing punctuation (`trim_end_matches`).
pub open spec fn trim_trailing_punctuation(t: Seq<char>) -> Seq<char>
    decreases t.len(),
{
    if t.len() > 0 && is_trailing_punctuation(t.last()) {
        trim_trailing_punctuation(t.drop_last())
    } else {
        t
    }
}

/// The index of the first `/`, `?` or `#` of `s` from `from` on, or the length: where the
/// authority of an address ends.
pub open spec fn authority_end(s: Seq<char>, from: int) -> int
    decreases s.len() - from,
{
    if from < 0 || from >= s.len() {
        s.len() as int
    } else if s[from] == '/' || s[from] == '?' || s[from] == '#' {
        from
    } else {
        authority_end(s, from + 1)
    }
}

/// The index of the first `c` in `s` from `from` on, or the length.
pub open spec fn index_of(s: Seq<char>, c: char, from: int) -> int
    decreases s.len() - from,
{
    if from < 0 || from >= s.len() {
        s.len() as int
    } else if s[from] == c {
        from
    } else {
        index_of(s, c, from + 1)
    }
}

/// The index of the last `c` in `s` before index `to`, or -1.
pub open spec fn last_index_of(s: Seq<char>, c: char, to: int) -> int
    decreases to,
{
    if to <= 0 || to > s.len() {
        -1
    } else if s[to - 1] == c {
        to - 1
    } else {
        last_index_of(s, c, to - 1)
    }
}

/// The host and port of an authority: `[host]`, `[host]:port`, `host:port` (split at the
/// last colon) or `host` alone, where a missing port is `default_port`; `None` when the
/// bracket is not closed, when something other than `:port` follows it, or when the port is
/// not a 16-bit number.
pub open spec fn host_and_port(authority: Seq<char>, default_port: u16) -> Option<
    (Seq<char>, u16),
> {
    if authority.len() > 0 && authority[0] == '[' {
        let inner = authority.drop_first();
        let close = index_of(inner, ']', 0);
        if close >= inner.len() {
            None
        } else {
            let suffix = inner.skip(close + 1);
            if suffix.len() == 0 {
                Some((inner.take(close), default_port))
            } else if suffix[0] == ':' {
                match parse_u16_spec(suffix.drop_first()) {
                    Some(port) => Some((inner.take(close), port)),
                    None => None,
                }
            } else {
                None
            }
        }
    } else {
        let colon = last_index_of(authority, ':', authority.len() as int);
        if colon >= 0 {
            match parse_u16_spec(authority.skip(colon + 1)) {
                Some(port) => Some((authority.take(colon), port)),
                None => None,
            }
        } else {
            Some((authority, default_port))
        }
    }
}

pub open spec fn localhost_name() -> Seq<char> {
    seq!['l', 'o', 'c', 'a', 'l', 'h', 'o', 's', 't']
}

pub open spec fn loopback_v4() -> Seq<char> {
    seq!['1', '2', '7', '.', '0', '.', '0', '.', '1']
}

pub open spec fn any_v4() -> Seq<char> {
    seq!['0', '.', '0', '.', '0', '.', '0']
}

pub open spec fn loopback_v6() -> Seq<char> {
    seq![':', ':', '1']
}

pub open spec fn any_v6() -> Seq<char> {
    seq![':', ':']
}

/// The host names that mean this machine.
pub open spec fn is_local_host(host: Seq<char>) -> bool {
    host == localhost_name() || host == loopback_v4() || host == any_v4() || host
        == loopback_v6() || host == any_v6()
}

/// The authority to show for a local host and port: the wildcard addresses become
/// `localhost`, the IPv6 loopback gets its brackets back.
pub open spec fn browser_authority(host: Seq<char>, port: u16) -> Seq<char> {
    if host == any_v4() || host == any_v6() {
        localhost_name() + seq![':'] + decimal(port as nat)
    } else if host == loopback_v6() {
        seq!['[', ':', ':', '1', ']', ':'] + decimal(port as nat)
    } else {
        host + seq![':'] + decimal(port as nat)
    }
}

/// The scheme of `candidate`, the rest after it and its default port.
pub open spec fn split_scheme(candidate: Seq<char>) -> Option<(Seq<char>, Seq<char>, u16)> {
    if has_prefix(candidate, http_scheme()) {
        Some((http_scheme(), candidate.skip(7), 80))
    } else if has_prefix(candidate, https_scheme()) {
        Some((https_scheme(), candidate.skip(8), 443))
    } else {
        None
    }
}

/// The local server address that `candidate` names, as (address, port), if it is an
/// `http://` or `https://` address on this machine with a non-zero port.
pub open spec fn parse_local_url_spec(candidate: Seq<char>) -> Option<(Seq<char>, u16)> {
    match split_scheme(candidate) {
        None => None,
        Some((scheme, rest, default_port)) => {
            let end = authority_end(rest, 0);
            match host_and_port(rest.take(end), default_port) {
                None => None,
                Some((host, port)) => if is_local_host(host) && port > 0 {
                    Some((scheme + browser_authority(host, port) + rest.skip(end), port))
                } else {
                    None
                },
            }
        },
    }
}

/// The addresses found in `s` from index `cursor` on, appended to `found`: each address
/// starts at the next `http://` or `https://`, runs up to the next character that ends an
/// address and loses its trailing punctuation; the local ones are kept, each only once.
pub open spec fn scan_urls(s: Seq<char>, cursor: int, found: Seq<(Seq<char>, u16)>) -> Seq<
    (Seq<char>, u16),
>
    decreases s.len() - cursor,
{
    if cursor < 0 || cursor >= s.len() {
        found
    } else {
        match next_scheme(s, cursor) {
            None => found,
            Some(start) => {
                proof {
                    lemma_next_scheme_bounds(s, cursor);
                    lemma_address_end_bounds(s, start);
                }
                let end = address_end(s, start);
                let next = if end > start {
                    end
                } else {
                    start + 1
                };
                let candidate = trim_trailing_punctuation(s.subrange(start, end));
                let found2 = match parse_local_url_spec(candidate) {
                    Some(url) => if found.contains(url) {
                        found
                    } else {
                        found.push(url)
                    },
                    None => found,
                };
                scan_urls(s, next, found2)
            },
        }
    }
}

/// The local server addresses in `text`, in order of first appearance, each once.
pub open spec fn local_urls_in(text: Seq<char>) -> Seq<(Seq<char>, u16)> {
    scan_urls(strip_escapes(text), 0, seq![])
}

pub proof fn lemma_next_scheme_bounds(s: Seq<char>, from: int)
    requires
        0 <= from,
    ensures
        next_scheme(s, from) matches Some(p) ==> from <= p < s.len(),
    decreases s.len() - from,
{
    if from < s.len() && !scheme_at(s, from) {
        lemma_next_scheme_bounds(s, from + 1);
    }
}

pub proof fn lemma_address_end_bounds(s: Seq<char>, from: int)
    requires
        0 <= from <= s.len(),
    ensures
        from <= address_end(s, from) <= s.len(),
    decreases s.len() - from,
{
    if from < s.len() && !ends_address(s[from]) {
        lemma_address_end_bounds(s, from + 1);
    }
}

/// The hosts an address to open in a browser names this machine by: `localhost`,
/// `127.0.0.1` and `[::1]`.
pub open spec fn is_browser_host(host: Seq<char>) -> bool {
    host == localhost_name() || host == loopback_v4() || host == seq!['[', ':', ':', '1', ']']
}

/// What may follow the authority of an address: nothing, or a path, query or fragment.
pub open spec fn is_address_rest(rest: Seq<char>) -> bool {
    rest.len() == 0 || rest[0] == '/' || rest[0] == '?' || rest[0] == '#'
}

/// The address made of a scheme, a host, the port in decimal and what follows.
pub open spec fn server_address(scheme: Seq<char>, host: Seq<char>, port: u16, rest: Seq<char>) -> Seq<
    char,
> {
    scheme + host + seq![':'] + decimal(port as nat) + rest
}

/// Whether `u` has the shape of an address that `extract_local_urls` returns: its port is
/// not zero and the address is `http://` or `https://`, a local host (`localhost`,
/// `127.0.0.1` or `[::1]`), `:` and that port, then nothing or a path, query or fragment.
pub open spec fn is_local_server_url(u: (Seq<char>, u16)) -> bool {
    &&& u.1 > 0
    &&& has_prefix(u.0, http_scheme()) || has_prefix(u.0, https_scheme())
    &&& exists|scheme: Seq<char>, host: Seq<char>, rest: Seq<char>|
        #![trigger server_address(scheme, host, u.1, rest)]
        (scheme == http_scheme() || scheme == https_scheme()) && is_browser_host(host)
            && is_address_rest(rest) && u.0 == server_address(scheme, host, u.1, rest)
}

proof fn lemma_parse_shape(candidate: Seq<char>)
    ensures
        parse_local_url_spec(candidate) matches Some(u) ==> is_local_server_url(u),
{
    if let Some(u) = parse_local_url_spec(candidate) {
        let (scheme, rest, d) = split_scheme(candidate).unwrap();
        let end = authority_end(rest, 0);
        let (host, port) = host_and_port(rest.take(end), d).unwrap();
        let tail = browser_authority(host, port) + rest.skip(end);
        assert(u.0 == scheme + browser_authority(host, port) + rest.skip(end));
        assert((scheme + browser_authority(host, port) + rest.skip(end)).subrange(
            0,
            scheme.len() as int,
        ) =~= scheme);
        lemma_authority_end_stops(rest, 0);
        let shown = if host == any_v4() || host == any_v6() {
            localhost_name()
        } else if host == loopback_v6() {
            seq!['[', ':', ':', '1', ']']
        } else {
            host
        };
        assert(browser_authority(host, port) =~= shown + seq![':'] + decimal(port as nat));
        assert(u.0 =~= server_address(scheme, shown, port, rest.skip(end)));
        assert(is_browser_host(shown));
        lemma_authority_end_bounds(rest, 0);
        if end < rest.len() {
            assert(rest.skip(end)[0] == rest[end]);
        }
        assert(is_address_rest(rest.skip(end)));
        assert(u.1 == port);
        assert(u.0 == server_address(scheme, shown, u.1, rest.skip(end)));
    }
}

/// The authority of `s` from `from` ends at `k` when no `/`, `?` or `#` comes before `k`
/// and one stands at `k` (or `k` is the end).
proof fn lemma_authority_end_is(s: Seq<char>, from: int, k: int)
    requires
        0 <= from <= k <= s.len(),
        forall|j: int| from <= j < k ==> !(s[j] == '/' || s[j] == '?' || s[j] == '#'),
        k < s.len() ==> (s[k] == '/' || s[k] == '?' || s[k] == '#'),
    ensures
        authority_end(s, from) == k,
    decreases k - from,
{
    if from < k {
        lemma_authority_end_is(s, from + 1, k);
    }
}

/// The last `c` before `to` is at `k` when `s[k]` is `c` and none follows up to `to`.
pub proof fn lemma_last_index_is(s: Seq<char>, c: char, to: int, k: int)
    requires
        0 <= k < to <= s.len(),
        s[k] == c,
        forall|j: int| k < j < to ==> s[j] != c,
    ensures
        last_index_of(s, c, to) == k,
    decreases to - k,
{
    if to - 1 > k {
        lemma_last_index_is(s, c, to - 1, k);
    }
}

/// The decimal notation of a port reads back as that port.
proof fn lemma_port_digits(port: u16)
    ensures
        parse_u16_spec(decimal(port as nat)) == Some(port),
        forall|j: int|
            0 <= j < decimal(port as nat).len() ==> is_digit(#[trigger] decimal(port as nat)[j]),
{
    let d = decimal(port as nat);
    lemma_decimal_reads_back(port as nat);
    assert(is_digit(d[0]));
    assert(unsigned_digits(d) == d);
}

/// An address made of a scheme and `r` splits into that scheme, `r` and the scheme's port.
proof fn lemma_split_scheme_of(scheme: Seq<char>, r: Seq<char>)
    requires
        scheme == http_scheme() || scheme == https_scheme(),
    ensures
        split_scheme(scheme + r) == Some(
            (
                scheme,
                r,
                if scheme == http_scheme() {
                    80u16
                } else {
                    443u16
                },
            ),
        ),
{
    let a = scheme + r;
    if scheme == http_scheme() {
        assert(a.subrange(0, 7) =~= http_scheme());
        assert(a.skip(7) =~= r);
    } else {
        assert(a[4] == 's');
        assert(!has_prefix(a, http_scheme()));
        assert(a.subrange(0, 8) =~= https_scheme());
        assert(a.skip(8) =~= r);
    }
}

/// The authority of `host:digits` followed by a rest ends where the rest begins.
proof fn lemma_authority_of(host: Seq<char>, port: u16, rest: Seq<char>)
    requires
        is_browser_host(host),
        is_address_rest(rest),
    ensures
        authority_end(host + seq![':'] + decimal(port as nat) + rest, 0) == host.len() + 1
            + decimal(port as nat).len(),
{
    let dec = decimal(port as nat);
    lemma_port_digits(port);
    let r = host + seq![':'] + dec + rest;
    let k: int = (host.len() + 1 + dec.len()) as int;
    assert forall|j: int| 0 <= j < host.len() implies !(#[trigger] host[j] == '/' || host[j] == '?'
        || host[j] == '#') by {
        if host == localhost_name() {
        } else if host == loopback_v4() {
        } else {
        }
    }
    assert forall|j: int| 0 <= j < k implies !(#[trigger] r[j] == '/' || r[j] == '?' || r[j]
        == '#') by {
        if j < host.len() {
            assert(r[j] == host[j]);
        } else if j > host.len() {
            assert(r[j] == dec[j - host.len() - 1]);
        }
    }
    if k < r.len() {
        assert(r[k] == rest[0]);
    }
    lemma_authority_end_is(r, 0, k);
}

/// The authority `host:digits` of a local address reads back as a local host and the port,
/// and is shown again as itself.
proof fn lemma_host_and_port_of(host: Seq<char>, port: u16, d: u16)
    requires
        is_browser_host(host),
        port > 0,
    ensures
        host_and_port(host + seq![':'] + decimal(port as nat), d) matches Some((h, p)) && p == port
            && is_local_host(h) && browser_authority(h, p) == host + seq![':'] + decimal(
            port as nat,
        ),
{
    let dec = decimal(port as nat);
    lemma_port_digits(port);
    let auth = host + seq![':'] + dec;
    if host == seq!['[', ':', ':', '1', ']'] {
        let inner = auth.drop_first();
        assert(inner =~= seq![':', ':', '1', ']', ':'] + dec);
        assert(index_of(inner, ']', 3) == 3);
        assert(index_of(inner, ']', 2) == 3);
        assert(index_of(inner, ']', 1) == 3);
        assert(index_of(inner, ']', 0) == 3);
        assert(inner.skip(4) =~= seq![':'] + dec);
        assert((seq![':'] + dec).drop_first() =~= dec);
        assert(inner.take(3) =~= loopback_v6());
        assert(host_and_port(auth, d) == Some((loopback_v6(), port)));
        assert(browser_authority(loopback_v6(), port) =~= auth);
    } else {
        assert(auth[0] != '[');
        assert forall|j: int| host.len() < j < auth.len() implies #[trigger] auth[j] != ':' by {
            assert(auth[j] == dec[j - host.len() - 1]);
        }
        lemma_last_index_is(auth, ':', auth.len() as int, host.len() as int);
        assert(auth.skip(host.len() + 1int) =~= dec);
        assert(auth.take(host.len() as int) =~= host);
        assert(host_and_port(auth, d) == Some((host, port)));
        assert(host != any_v4() && host != any_v6() && host != loopback_v6());
        assert(browser_authority(host, port) =~= auth);
    }
}

/// Sentence punctuation at the end of an address is dropped: a `.`, `,`, `;`, `)`, `]` or
/// `}` after a text leaves the trimmed text as it was, and a text that ends in anything else
/// is kept whole.
pub proof fn lemma_trim_drops_sentence_punctuation(t: Seq<char>, c: char)
    ensures
        c == '.' || c == ',' || c == ';' || c == ')' || c == ']' || c == '}'
            ==> trim_trailing_punctuation(t.push(c)) == trim_trailing_punctuation(t),
        t.len() > 0 && !(t.last() == '.' || t.last() == ',' || t.last() == ';' || t.last() == ')'
            || t.last() == ']' || t.last() == '}') ==> trim_trailing_punctuation(t) == t,
{
    assert(t.push(c).drop_last() =~= t);
}

/// The end of an address in `s` from `from` is `k` when no character before `k` ends an
/// address and the one at `k` does (or `k` is the end).
proof fn lemma_address_end_is(s: Seq<char>, from: int, k: int)
    requires
        0 <= from <= k <= s.len(),
        forall|j: int| from <= j < k ==> !ends_address(#[trigger] s[j]),
        k < s.len() ==> ends_address(s[k]),
    ensures
        address_end(s, from) == k,
    decreases k - from,
{
    if from < k {
        lemma_address_end_is(s, from + 1, k);
    }
}

/// The addresses found in a text that holds one local address `u` followed by `tail`, when
/// the tail starts with a character that ends an address and holds no `http` address:
/// just `u`.
proof fn lemma_single_address(u: (Seq<char>, u16), s: Seq<char>, end: int)
    requires
        is_local_server_url(u),
        has_prefix(s, u.0),
        forall|i: int| 0 <= i < s.len() ==> s[i] != escape(),
        forall|i: int| 0 <= i < end ==> !ends_address(#[trigger] s[i]),
        u.0.len() <= end <= s.len(),
        end < s.len() ==> ends_address(s[end]),
        trim_trailing_punctuation(s.subrange(0, end)) == u.0,
        s.len() < end + 7,
    ensures
        local_urls_in(s) == seq![u],
{
    assert(!s.contains(escape()));
    lemma_strip_keeps_plain_text(s);
    let a = u.0;
    assert(s.skip(0) =~= s);
    if has_prefix(a, http_scheme()) {
        assert(s.subrange(0, 7) =~= a.subrange(0, 7));
    } else {
        assert(s.subrange(0, 8) =~= a.subrange(0, 8));
    }
    assert(scheme_at(s, 0));
    assert(next_scheme(s, 0) == Some(0int));
    lemma_address_end_is(s, 0, end);
    lemma_local_url_parses_back(u);
    assert(a.len() >= 7);
    let found2 = seq![u];
    assert(seq![].push(u) =~= found2);
    assert(scan_urls(s, 0, seq![]) == scan_urls(s, end, found2));
    if end < s.len() {
        assert forall|k: int| end <= k < s.len() implies !scheme_at(s, k) by {
            assert(s.skip(k).len() < 7);
        }
        lemma_no_scheme_from(s, end);
    }
}

/// No address starts at or after `from` when none starts at any index from there.
proof fn lemma_no_scheme_from(s: Seq<char>, from: int)
    requires
        0 <= from,
        forall|k: int| from <= k < s.len() ==> !scheme_at(s, k),
    ensures
        next_scheme(s, from) is None,
    decreases s.len() - from,
{
    if from < s.len() {
        lemma_no_scheme_from(s, from + 1);
    }
}

/// Sentence punctuation after an address does not change what is found: a local address
/// made of characters that do not end an address, and not ending in punctuation, is found
/// alone, and so it is when a `.`, `,`, `;`, `)`, `]` or `}` and a space follow it.
pub proof fn lemma_punctuation_after_address(u: (Seq<char>, u16), c: char)
    requires
        is_local_server_url(u),
        forall|i: int| 0 <= i < u.0.len() ==> !ends_address(#[trigger] u.0[i]),
        !is_trailing_punctuation(u.0.last()),
        c == '.' || c == ',' || c == ';' || c == ')' || c == ']' || c == '}',
    ensures
        local_urls_in(u.0) == seq![u],
        local_urls_in(u.0 + seq![c, ' ']) == seq![u],
{
    let a = u.0;
    assert(a.len() >= 7) by {
        if has_prefix(a, http_scheme()) {
        } else {
        }
    }
    assert forall|i: int| 0 <= i < a.len() implies a[i] != escape() by {
        assert(!ends_address(a[i]));
    }
    lemma_trim_drops_sentence_punctuation(a, c);
    assert(a.subrange(0, a.len() as int) =~= a);
    assert(has_prefix(a, a));
    lemma_single_address(u, a, a.len() as int);
    let s = a + seq![c, ' '];
    let end: int = a.len() + 1int;
    assert(s.subrange(0, end) =~= a.push(c));
    assert(s.subrange(0, a.len() as int) =~= a);
    assert forall|i: int| 0 <= i < s.len() implies s[i] != escape() by {
        if i < a.len() {
            assert(s[i] == a[i]);
        }
    }
    assert forall|i: int| 0 <= i < end implies !ends_address(#[trigger] s[i]) by {
        if i < a.len() {
            assert(s[i] == a[i]);
        }
    }
    assert(s[end] == ' ');
    assert(is_space(' '));
    lemma_single_address(u, s, end);
}

/// Whether `address` starts with the scheme that `candidate` starts with.
pub open spec fn keeps_scheme(candidate: Seq<char>, address: Seq<char>) -> bool {
    (has_prefix(candidate, http_scheme()) && has_prefix(address, http_scheme())) || (has_prefix(
        candidate,
        https_scheme(),
    ) && has_prefix(address, https_scheme()))
}

/// The address a candidate parses to starts with the candidate's scheme.
pub proof fn lemma_parse_keeps_scheme(candidate: Seq<char>)
    ensures
        parse_local_url_spec(candidate) matches Some(u) ==> keeps_scheme(candidate, u.0),
{
    if let Some(u) = parse_local_url_spec(candidate) {
        let (scheme, rest, d) = split_scheme(candidate).unwrap();
        let end = authority_end(rest, 0);
        let (host, port) = host_and_port(rest.take(end), d).unwrap();
        let tail = browser_authority(host, port) + rest.skip(end);
        assert(u.0 =~= scheme + tail);
        assert((scheme + tail).subrange(0, scheme.len() as int) =~= scheme);
    }
}

/// A local server address parses back to itself: the normalized address is a fixed point
/// of the parse.
pub proof fn lemma_local_url_parses_back(u: (Seq<char>, u16))
    requires
        is_local_server_url(u),
    ensures
        parse_local_url_spec(u.0) == Some(u),
{
    let port = u.1;
    let (scheme, host, rest) = choose|scheme: Seq<char>, host: Seq<char>, rest: Seq<char>|
        #![trigger server_address(scheme, host, port, rest)]
        (scheme == http_scheme() || scheme == https_scheme()) && is_browser_host(host)
            && is_address_rest(rest) && u.0 == server_address(scheme, host, port, rest);
    let dec = decimal(port as nat);
    let auth = host + seq![':'] + dec;
    let r = auth + rest;
    assert(u.0 =~= scheme + r);
    lemma_split_scheme_of(scheme, r);
    lemma_authority_of(host, port, rest);
    let k = authority_end(r, 0);
    assert(r.take(k) =~= auth);
    assert(r.skip(k) =~= rest);
    let d: u16 = if scheme == http_scheme() {
        80
    } else {
        443
    };
    lemma_host_and_port_of(host, port, d);
    assert(u.0 =~= scheme + auth + rest);
}

/// Where the authority of an address ends, a `/`, `?` or `#` stands, or the text ends.
pub proof fn lemma_authority_end_stops(s: Seq<char>, from: int)
    requires
        0 <= from <= s.len(),
    ensures
        authority_end(s, from) < s.len() ==> (s[authority_end(s, from)] == '/' || s[authority_end(
            s,
            from,
        )] == '?' || s[authority_end(s, from)] == '#'),
    decreases s.len() - from,
{
    if from < s.len() && !(s[from] == '/' || s[from] == '?' || s[from] == '#') {
        lemma_authority_end_stops(s, from + 1);
    }
}

/// Every address the scan adds is a local server address, and none is added twice.
proof fn lemma_scan_urls_shape(s: Seq<char>, cursor: int, found: Seq<(Seq<char>, u16)>)
    requires
        found.no_duplicates(),
        forall|i: int| 0 <= i < found.len() ==> is_local_server_url(#[trigger] found[i]),
    ensures
        scan_urls(s, cursor, found).no_duplicates(),
        forall|i: int|
            0 <= i < scan_urls(s, cursor, found).len() ==> is_local_server_url(
                #[trigger] scan_urls(s, cursor, found)[i],
            ),
    decreases s.len() - cursor,
{
    if 0 <= cursor < s.len() {
        lemma_next_scheme_bounds(s, cursor);
        if let Some(start) = next_scheme(s, cursor) {
            let end = address_end(s, start);
            let next = if end > start {
                end
            } else {
                start + 1
            };
            let candidate = trim_trailing_punctuation(s.subrange(start, end));
            lemma_address_end_bounds(s, start);
            lemma_parse_shape(candidate);
            let found2 = match parse_local_url_spec(candidate) {
                Some(url) => if found.contains(url) {
                    found
                } else {
                    found.push(url)
                },
                None => found,
            };
            assert(found2.no_duplicates());
            assert forall|i: int| 0 <= i < found2.len() implies is_local_server_url(
                #[trigger] found2[i],
            ) by {
                if i < found.len() {
                    assert(found2[i] == found[i]);
                }
            }
            lemma_scan_urls_shape(s, next, found2);
        }
    }
}

/// The views of a sequence of addresses.
pub open spec fn url_views(urls: Seq<LocalServerUrl>) -> Seq<(Seq<char>, u16)> {
    urls.map_values(|u: LocalServerUrl| u@)
}

fn http_chars() -> (v: Vec<char>)
    ensures
        v@ == http_scheme(),
{
    vec!['h', 't', 't', 'p', ':', '/', '/']
}

fn https_chars() -> (v: Vec<char>)
    ensures
        v@ == https_scheme(),
{
    vec!['h', 't', 't', 'p', 's', ':', '/', '/']
}

proof fn lemma_prefix_of_skip(s: Seq<char>, n: Seq<char>, i: int)
    requires
        0 <= i <= s.len(),
    ensures
        has_prefix(s.skip(i), n) == occurs_at(s, n, i),
{
    if n.len() <= s.len() - i {
        assert(s.skip(i).subrange(0, n.len() as int) =~= s.subrange(i, i + n.len()));
    }
}

/// The first index from `from` on at which an address starts.
fn find_scheme(s: &[char], from: usize, http: &[char], https: &[char]) -> (r: Option<usize>)
    requires
        http@ == http_scheme(),
        https@ == https_scheme(),
    ensures
        match r {
            Some(p) => next_scheme(s@, from as int) == Some(p as int),
            None => next_scheme(s@, from as int) is None,
        },
{
    let mut k = from;
    while k < s.len()
        invariant
            from <= k,
            http@ == http_scheme(),
            https@ == https_scheme(),
            next_scheme(s@, from as int) == next_scheme(s@, k as int),
        decreases s@.len() - k,
    {
        proof {
            lemma_prefix_of_skip(s@, http_scheme(), k as int);
            lemma_prefix_of_skip(s@, https_scheme(), k as int);
        }
        if occurs_at_exec(s, http, k) || occurs_at_exec(s, https, k) {
            return Some(k);
        }
        k = k + 1;
    }
    None
}

/// Whether `c` ends an address in running text.
fn ends_address_exec(c: char) -> (r: bool)
    ensures
        r == ends_address(c),
{
    is_whitespace(c) || is_control(c) || c == '"' || c == '\'' || c == '<' || c == '>'
}

/// The first index from `from` on that holds a character ending an address, or the length.
fn find_address_end(s: &[char], from: usize) -> (r: usize)
    requires
        from <= s@.len(),
    ensures
        r == address_end(s@, from as int),
{
    let mut k = from;
    while k < s.len() && !ends_address_exec(s[k])
        invariant
            from <= k <= s@.len(),
            address_end(s@, from as int) == address_end(s@, k as int),
        decreases s@.len() - k,
    {
        k = k + 1;
    }
    k
}

/// `t` without trailing punctuation.
fn trim_punctuation(t: &[char]) -> (r: Vec<char>)
    ensures
        r@ == trim_trailing_punctuation(t@),
{
    let mut end = t.len();
    assert(t@.subrange(0, end as int) =~= t@);
    while end > 0 && (t[end - 1] == '.' || t[end - 1] == ',' || t[end - 1] == ';' || t[end - 1]
        == ')' || t[end - 1] == ']' || t[end - 1] == '}')
        invariant
            end <= t@.len(),
            trim_trailing_punctuation(t@) == trim_trailing_punctuation(t@.subrange(0, end as int)),
        decreases end,
    {
        assert(t@.subrange(0, end as int).drop_last() =~= t@.subrange(0, end - 1));
        end = end - 1;
    }
    slice_chars(t, 0, end)
}

/// Where the authority of `rest` ends.
fn find_authority_end(rest: &[char]) -> (r: usize)
    ensures
        r == authority_end(rest@, 0),
{
    let mut k: usize = 0;
    while k < rest.len() && !(rest[k] == '/' || rest[k] == '?' || rest[k] == '#')
        invariant
            k <= rest@.len(),
            authority_end(rest@, 0) == authority_end(rest@, k as int),
        decreases rest@.len() - k,
    {
        k = k + 1;
    }
    k
}

/// The index of the first `c` in `s`, or the length.
fn find_char(s: &[char], c: char) -> (r: usize)
    ensures
        r == index_of(s@, c, 0),
{
    let mut k: usize = 0;
    while k < s.len() && s[k] != c
        invariant
            k <= s@.len(),
            index_of(s@, c, 0) == index_of(s@, c, k as int),
        decreases s@.len() - k,
    {
        k = k + 1;
    }
    k
}

/// The index of the last `c` in `s`, if any.
fn find_last_char(s: &[char], c: char) -> (r: Option<usize>)
    ensures
        match r {
            Some(k) => last_index_of(s@, c, s@.len() as int) == k && k < s@.len(),
            None => last_index_of(s@, c, s@.len() as int) == -1,
        },
{
    let mut k = s.len();
    while k > 0 && s[k - 1] != c
        invariant
            k <= s@.len(),
            last_index_of(s@, c, s@.len() as int) == last_index_of(s@, c, k as int),
        decreases k,
    {
        k = k - 1;
    }
    if k > 0 {
        Some(k - 1)
    } else {
        None
    }
}

/// The host and port of an authority (see `host_and_port`).
fn split_host_port(authority: &[char], default_port: u16) -> (r: Option<(Vec<char>, u16)>)
    ensures
        match r {
            Some((host, port)) => host_and_port(authority@, default_port) == Some((host@, port)),
            None => host_and_port(authority@, default_port) is None,
        },
{
    if authority.len() > 0 && authority[0] == '[' {
        let inner = slice_chars(authority, 1, authority.len());
        assert(inner@ =~= authority@.drop_first());
        let close = find_char(&inner, ']');
        if close >= inner.len() {
            return None;
        }
        let host = slice_chars(&inner, 0, close);
        let suffix = slice_chars(&inner, close + 1, inner.len());
        assert(host@ =~= inner@.take(close as int));
        assert(suffix@ =~= inner@.skip(close + 1));
        if suffix.len() == 0 {
            Some((host, default_port))
        } else if suffix[0] == ':' {
            let digits = slice_chars(&suffix, 1, suffix.len());
            assert(digits@ =~= suffix@.drop_first());
            match parse_u16(&digits) {
                Some(port) => Some((host, port)),
                None => None,
            }
        } else {
            None
        }
    } else {
        match find_last_char(authority, ':') {
            Some(colon) => {
                let digits = slice_chars(authority, colon + 1, authority.len());
                let host = slice_chars(authority, 0, colon);
                assert(digits@ =~= authority@.skip(colon + 1));
                assert(host@ =~= authority@.take(colon as int));
                match parse_u16(&digits) {
                    Some(port) => Some((host, port)),
                    None => None,
                }
            },
            None => Some((slice_chars(authority, 0, authority.len()), default_port)),
        }
    }
}

fn localhost_chars() -> (v: Vec<char>)
    ensures
        v@ == localhost_name(),
{
    vec!['l', 'o', 'c', 'a', 'l', 'h', 'o', 's', 't']
}

fn host_is(host: &[char], name: &[char]) -> (r: bool)
    ensures
        r == (host@ == name@),
{
    crate::text::chars_equal(host, name)
}

/// The authority to show for a local host and port.
fn browser_authority_exec(host: &[char], port: u16) -> (r: Vec<char>)
    ensures
        r@ == browser_authority(host@, port),
{
    let any4 = vec!['0', '.', '0', '.', '0', '.', '0'];
    let any6 = vec![':', ':'];
    let loop6 = vec![':', ':', '1'];
    let digits = decimal_chars(port);
    let mut r: Vec<char>;
    if host_is(host, &any4) || host_is(host, &any6) {
        r = localhost_chars();
        r.push(':');
    } else if host_is(host, &loop6) {
        r = vec!['[', ':', ':', '1', ']', ':'];
    } else {
        r = slice_chars(host, 0, host.len());
        r.push(':');
    }
    push_chars(&mut r, &digits);
    r
}

/// Whether `host` names this machine.
fn is_local_host_exec(host: &[char]) -> (r: bool)
    ensures
        r == is_local_host(host@),
{
    let localhost = localhost_chars();
    let loop4 = vec!['1', '2', '7', '.', '0', '.', '0', '.', '1'];
    let any4 = vec!['0', '.', '0', '.', '0', '.', '0'];
    let loop6 = vec![':', ':', '1'];
    let any6 = vec![':', ':'];
    host_is(host, &localhost) || host_is(host, &loop4) || host_is(host, &any4) || host_is(
        host,
        &loop6,
    ) || host_is(host, &any6)
}

/// The local server address that `candidate` names, if any (see `parse_local_url_spec`).
pub fn parse_local_url(candidate: &[char]) -> (r: Option<LocalServerUrl>)
    ensures
        match r {
            Some(u) => parse_local_url_spec(candidate@) == Some(u@),
            None => parse_local_url_spec(candidate@) is None,
        },
        r matches Some(u) ==> is_local_server_url(u@) && parse_local_url_spec(u@.0) == Some(u@)
            && keeps_scheme(candidate@, u@.0),
{
    proof {
        lemma_parse_keeps_scheme(candidate@);
        lemma_parse_shape(candidate@);
        if let Some(u) = parse_local_url_spec(candidate@) {
            lemma_local_url_parses_back(u);
        }
    }
    let http = http_chars();
    let https = https_chars();
    let (scheme, skip, default_port): (Vec<char>, usize, u16) = if starts_with(
        candidate,
        &http,
    ) {
        (http, 7, 80)
    } else if starts_with(candidate, &https) {
        (https, 8, 443)
    } else {
        return None;
    };
    let rest = slice_chars(candidate, skip, candidate.len());
    assert(rest@ =~= candidate@.skip(skip as int));
    let end = find_authority_end(&rest);
    proof {
        lemma_authority_end_bounds(rest@, 0);
    }
    let authority = slice_chars(&rest, 0, end);
    assert(authority@ =~= rest@.take(end as int));
    let (host, port_value) = match split_host_port(&authority, default_port) {
        Some(parts) => parts,
        None => return None,
    };
    if !is_local_host_exec(&host) {
        return None;
    }
    let port = match Port::new(port_value) {
        Some(p) => p,
        None => return None,
    };
    let mut address = scheme;
    let shown = browser_authority_exec(&host, port_value);
    push_chars(&mut address, &shown);
    let suffix = slice_chars(&rest, end, rest.len());
    assert(suffix@ =~= rest@.skip(end as int));
    push_chars(&mut address, &suffix);
    let address = string_of(&address);
    proof {
        lemma_parse_shape(candidate@);
    }
    Some(LocalServerUrl { address, port })
}

pub proof fn lemma_authority_end_bounds(s: Seq<char>, from: int)
    requires
        0 <= from <= s.len(),
    ensures
        from <= authority_end(s, from) <= s.len(),
    decreases s.len() - from,
{
    if from < s.len() && !(s[from] == '/' || s[from] == '?' || s[from] == '#') {
        lemma_authority_end_bounds(s, from + 1);
    }
}

/// Whether `urls` already holds an address equal to `url`.
fn contains_url(urls: &Vec<LocalServerUrl>, url: &LocalServerUrl) -> (r: bool)
    ensures
        r == url_views(urls@).contains(url@),
{
    let mut i: usize = 0;
    while i < urls.len()
        invariant
            i <= urls@.len(),
            forall|j: int| 0 <= j < i ==> urls@[j]@ != url@,
        decreases urls@.len() - i,
    {
        if urls[i].address == url.address && urls[i].port.0 == url.port.0 {
            assert(url_views(urls@)[i as int] == url@);
            return true;
        }
        i = i + 1;
    }
    assert forall|j: int| 0 <= j < url_views(urls@).len() implies url_views(urls@)[j] != url@ by {
        assert(url_views(urls@)[j] == urls@[j]@);
    }
    false
}

/// The local server addresses that `text` mentions, such as those that development servers
/// print when they start (`Local: http://localhost:5173/`): terminal colour codes are
/// ignored, wildcard hosts (`0.0.0.0`, `::`) are shown as `localhost`, addresses of other
/// machines are skipped, and each address is returned once, in order of first appearance.
pub fn extract_local_urls(text: &str) -> (urls: Vec<LocalServerUrl>)
    ensures
        url_views(urls@) == local_urls_in(text@),
        url_views(urls@).no_duplicates(),
        forall|i: int| 0 <= i < urls@.len() ==> is_local_server_url(#[trigger] urls@[i]@),
{
    let raw = chars_of(text);
    let clean = strip_terminal_sequences(&raw);
    let http = http_chars();
    let https = https_chars();
    let ghost s = clean@;
    let mut urls: Vec<LocalServerUrl> = Vec::new();
    let mut cursor: usize = 0;
    assert(url_views(urls@) =~= seq![]);
    while cursor < clean.len()
        invariant
            s == clean@,
            http@ == http_scheme(),
            https@ == https_scheme(),
            cursor <= s.len(),
            local_urls_in(text@) == scan_urls(s, 0, seq![]),
            scan_urls(s, 0, seq![]) == scan_urls(s, cursor as int, url_views(urls@)),
        decreases s.len() - cursor,
    {
        proof {
            lemma_next_scheme_bounds(s, cursor as int);
        }
        match find_scheme(&clean, cursor, &http, &https) {
            None => {
                cursor = clean.len();
            },
            Some(start) => {
                let end = find_address_end(&clean, start);
                proof {
                    lemma_address_end_bounds(s, start as int);
                }
                let token = slice_chars(&clean, start, end);
                let candidate = trim_punctuation(&token);
                let ghost before = url_views(urls@);
                match parse_local_url(&candidate) {
                    Some(url) => {
                        if !contains_url(&urls, &url) {
                            urls.push(url);
                            assert(url_views(urls@) =~= before.push(url@));
                        }
                    },
                    None => {},
                }
                cursor = if end > start {
                    end
                } else {
                    start + 1
                };
            },
        }
    }
    proof {
        lemma_scan_urls_shape(s, 0, seq![]);
    }
    assert forall|i: int| 0 <= i < urls@.len() implies is_local_server_url(#[trigger] urls@[i]@) by {
        assert(url_views(urls@)[i] == urls@[i]@);
    }
    urls
}

/// The text left after removing escape sequences holds no escape character: every escape
/// character starts a sequence that is dropped whole.
pub proof fn lemma_strip_removes_escapes(s: Seq<char>)
    ensures
        !strip_escapes(s).contains(escape()),
{
    lemma_strip_from_removes_escapes(s, 0);
}

proof fn lemma_strip_from_removes_escapes(s: Seq<char>, i: int)
    requires
        0 <= i,
    ensures
        !strip_from(s, i).contains(escape()),
    decreases s.len() - i,
{
    if i < s.len() {
        if s[i] != escape() {
            lemma_strip_from_removes_escapes(s, i + 1);
            let rest = strip_from(s, i + 1);
            assert forall|k: int| 0 <= k < (seq![s[i]] + rest).len() implies (seq![s[i]]
                + rest)[k] != escape() by {
                if k > 0 {
                    assert((seq![s[i]] + rest)[k] == rest[k - 1]);
                }
            }
        } else if i + 1 < s.len() {
            if s[i + 1] == '[' {
                lemma_csi_end_bounds(s, i + 2);
                lemma_strip_from_removes_escapes(s, csi_end(s, i + 2));
            } else if s[i + 1] == ']' {
                lemma_osc_end_bounds(s, i + 2);
                lemma_strip_from_removes_escapes(s, osc_end(s, i + 2));
            } else {
                lemma_strip_from_removes_escapes(s, i + 2);
            }
        }
    }
}

/// Whether `f` picks `a` out of `b`: `a[k]` is `b[f[k]]`, at increasing indices.
pub open spec fn picks_out(a: Seq<char>, b: Seq<char>, f: Seq<int>) -> bool {
    &&& f.len() == a.len()
    &&& forall|k: int| 0 <= k < f.len() ==> 0 <= #[trigger] f[k] < b.len() && a[k] == b[f[k]]
    &&& forall|k: int, l: int| 0 <= k < l < f.len() ==> #[trigger] f[k] < #[trigger] f[l]
}

/// Whether `a` is a subsequence of `b`: its characters stand in `b` in the same order.
pub open spec fn is_subsequence(a: Seq<char>, b: Seq<char>) -> bool {
    exists|f: Seq<int>| picks_out(a, b, f)
}

/// Stripping only drops characters: what is left is a subsequence of the text.
pub proof fn lemma_strip_keeps_a_subsequence(s: Seq<char>)
    ensures
        is_subsequence(strip_escapes(s), s),
{
    let f = lemma_strip_from_picks(s, 0);
    assert(picks_out(strip_escapes(s), s, f));
}

/// Stripping twice strips no more than once.
pub proof fn lemma_strip_twice(s: Seq<char>)
    ensures
        strip_escapes(strip_escapes(s)) == strip_escapes(s),
{
    lemma_strip_removes_escapes(s);
    lemma_strip_keeps_plain_text(strip_escapes(s));
}

proof fn lemma_strip_from_picks(s: Seq<char>, i: int) -> (f: Seq<int>)
    requires
        0 <= i,
    ensures
        picks_out(strip_from(s, i), s, f),
        forall|k: int| 0 <= k < f.len() ==> i <= #[trigger] f[k],
    decreases s.len() - i,
{
    if i >= s.len() {
        seq![]
    } else if s[i] != escape() {
        let g = lemma_strip_from_picks(s, i + 1);
        let rest = strip_from(s, i + 1);
        let f = seq![i] + g;
        let r = seq![s[i]] + rest;
        assert forall|k: int| 0 <= k < f.len() implies 0 <= #[trigger] f[k] < s.len() && r[k] == s[f[k]]
            && i <= f[k] by {
            if k > 0 {
                assert(f[k] == g[k - 1]);
                assert(r[k] == rest[k - 1]);
            }
        }
        assert forall|k: int, l: int| 0 <= k < l < f.len() implies #[trigger] f[k] < #[trigger] f[l] by {
            assert(f[l] == g[l - 1]);
            if k > 0 {
                assert(f[k] == g[k - 1]);
            }
        }
        f
    } else if i + 1 >= s.len() {
        seq![]
    } else if s[i + 1] == '[' {
        lemma_csi_end_bounds(s, i + 2);
        lemma_strip_from_picks(s, csi_end(s, i + 2))
    } else if s[i + 1] == ']' {
        lemma_osc_end_bounds(s, i + 2);
        lemma_strip_from_picks(s, osc_end(s, i + 2))
    } else {
        lemma_strip_from_picks(s, i + 2)
    }
}

/// Text without escape characters is left as it is.
pub proof fn lemma_strip_keeps_plain_text(s: Seq<char>)
    requires
        !s.contains(escape()),
    ensures
        strip_escapes(s) == s,
{
    lemma_strip_from_plain(s, 0);
    assert(s.skip(0) =~= s);
}

proof fn lemma_strip_from_plain(s: Seq<char>, i: int)
    requires
        0 <= i <= s.len(),
        !s.contains(escape()),
    ensures
        strip_from(s, i) == s.skip(i),
    decreases s.len() - i,
{
    if i < s.len() {
        assert(s[i] != escape());
        lemma_strip_from_plain(s, i + 1);
        assert(seq![s[i]] + s.skip(i + 1) =~= s.skip(i));
    } else {
        assert(s.skip(i) =~= Seq::<char>::empty());
    }
}

} // verus!
