//! Application configuration: the exact rules by which the raw environment
//! values become a validated configuration. Reading the environment itself
//! is left to the process around the library; this module only decides.

use vstd::prelude::*;
use vstd::string::*;
use crate::digits::{all_dec_digits, dec_val};
use crate::digits::parse_u64;

verus! {

/// Default timeout for HTTP requests in milliseconds.
pub const DEFAULT_TIME_OUT: u64 = 1000;

/// Maximum number of idle connections per host for the HTTP client pool.
pub const POOL_MAX_IDLE_PER_HOST: usize = 1;

/// Default port to bind to if not provided in the environment.
pub const DEFAULT_PORT: u16 = 8000;

/// Default IP address to bind to if not provided in the environment.
pub fn default_ip() -> (r: &'static str)
    ensures
        r@ == "127.0.0.1"@,
{
    "127.0.0.1"
}

/// Why a configuration was rejected.
#[derive(Clone, Copy, Debug, PartialEq, Eq, Structural)]
pub enum ConfigError {
    /// The list of poll targets is missing.
    MissingUrls,
    /// The poll period is missing.
    MissingInterval,
    /// The poll period is not a positive integer of milliseconds.
    BadInterval,
    /// The SMA window size is missing.
    MissingSmaN,
    /// The SMA window size is not a positive integer that fits the machine.
    BadSmaN,
}

/// Application configuration as plain values.
#[derive(Debug)]
pub struct AppConfig {
    /// List of URLs to fetch data from.
    pub urls: Vec<String>,
    /// Polling interval in milliseconds.
    pub interval_ms: u64,
    /// Window size for calculating the SMA.
    pub sma_n: usize,
    /// HTTP connect and idle-pool timeout in milliseconds.
    pub time_out_ms: u64,
    /// IP address for the service to bind to.
    pub ip: String,
    /// Port for the service to bind to.
    pub port: u16,
}

/// A character trimmed from the ends of a configured URL.
pub open spec fn is_bracket(c: char) -> bool {
    c == '[' || c == ']'
}

/// The sequence with its leading brackets removed.
pub open spec fn ltrim(s: Seq<char>) -> Seq<char>
    decreases s.len(),
{
    if s.len() > 0 && is_bracket(s[0]) {
        ltrim(s.skip(1))
    } else {
        s
    }
}

/// The sequence with its trailing brackets removed.
pub open spec fn rtrim(s: Seq<char>) -> Seq<char>
    decreases s.len(),
{
    if s.len() > 0 && is_bracket(s.last()) {
        rtrim(s.drop_last())
    } else {
        s
    }
}

/// The sequence with brackets removed from both ends.
pub open spec fn trim_brackets(s: Seq<char>) -> Seq<char> {
    rtrim(ltrim(s))
}

/// Index of the first comma, or the length when there is none.
pub open spec fn find_comma(s: Seq<char>) -> int
    decreases s.len(),
{
    if s.len() == 0 {
        0
    } else if s[0] == ',' {
        0
    } else {
        1 + find_comma(s.skip(1))
    }
}

/// The comma-separated pieces of the sequence, in order. A sequence without
/// a comma is one piece; every comma separates two pieces.
pub open spec fn split_commas(s: Seq<char>) -> Seq<Seq<char>>
    decreases s.len(),
{
    let k = find_comma(s);
    if 0 <= k < s.len() {
        seq![s.subrange(0, k)] + split_commas(s.subrange(k + 1, s.len() as int))
    } else {
        seq![s]
    }
}

proof fn lemma_ltrim_exact(s: Seq<char>, a: int)
    requires
        0 <= a <= s.len(),
        forall|i: int| 0 <= i < a ==> is_bracket(#[trigger] s[i]),
        a == s.len() || !is_bracket(s[a]),
    ensures
        ltrim(s) =~= s.subrange(a, s.len() as int),
    decreases a,
{
    if a == 0 {
        assert(s.subrange(0, s.len() as int) =~= s);
    } else {
        assert(is_bracket(s[0]));
        let t = s.skip(1);
        assert forall|i: int| 0 <= i < a - 1 implies is_bracket(#[trigger] t[i]) by {
            assert(t[i] == s[i + 1]);
        }
        lemma_ltrim_exact(t, a - 1);
        assert(t.subrange(a - 1, t.len() as int) =~= s.subrange(a, s.len() as int));
    }
}

proof fn lemma_rtrim_exact(s: Seq<char>, b: int)
    requires
        0 <= b <= s.len(),
        forall|i: int| b <= i < s.len() ==> is_bracket(#[trigger] s[i]),
        b == 0 || !is_bracket(s[b - 1]),
    ensures
        rtrim(s) =~= s.subrange(0, b),
    decreases s.len() - b,
{
    if b == s.len() {
        assert(s.subrange(0, s.len() as int) =~= s);
    } else {
        assert(is_bracket(s.last()));
        let t = s.drop_last();
        assert forall|i: int| b <= i < t.len() implies is_bracket(#[trigger] t[i]) by {
            assert(t[i] == s[i]);
        }
        lemma_rtrim_exact(t, b);
        assert(t.subrange(0, b) =~= s.subrange(0, b));
    }
}

proof fn lemma_find_comma_exact(s: Seq<char>, k: int)
    requires
        0 <= k <= s.len(),
        forall|j: int| 0 <= j < k ==> #[trigger] s[j] != ',',
        k == s.len() || s[k] == ',',
    ensures
        find_comma(s) == k,
    decreases k,
{
    if s.len() == 0 {
    } else if k == 0 {
    } else {
        assert(s[0] != ',');
        let t = s.skip(1);
        assert forall|j: int| 0 <= j < k - 1 implies #[trigger] t[j] != ',' by {
            assert(t[j] == s[j + 1]);
        }
        if k < s.len() {
            assert(t[k - 1] == s[k]);
        }
        lemma_find_comma_exact(t, k - 1);
    }
}

/// Tests whether the character is one trimmed from URL ends.
fn char_is_bracket(c: char) -> (r: bool)
    ensures
        r == is_bracket(c),
{
    c == '[' || c == ']'
}

/// Helper function to clean URLs from extra characters like `[` and `]`.
pub fn clean_urls(url: &str) -> (r: String)
    ensures
        r@ =~= trim_brackets(url@),
{
    let n = url.unicode_len();
    let mut a: usize = 0;
    while a < n && char_is_bracket(url.get_char(a))
        invariant
            a <= n,
            n == url@.len(),
            forall|i: int| 0 <= i < a ==> is_bracket(#[trigger] url@[i]),
        decreases n - a,
    {
        a = a + 1;
    }
    let mut b: usize = n;
    while b > a && char_is_bracket(url.get_char(b - 1))
        invariant
            a <= b <= n,
            n == url@.len(),
            forall|i: int| b <= i < n ==> is_bracket(#[trigger] url@[i]),
        decreases b,
    {
        b = b - 1;
    }
    let piece = url.substring_char(a, b);
    proof {
        lemma_ltrim_exact(url@, a as int);
        let mid = url@.subrange(a as int, n as int);
        assert forall|i: int| (b - a) <= i < mid.len() implies is_bracket(
            #[trigger] mid[i],
        ) by {
            assert(mid[i] == url@[a + i]);
        }
        if b > a {
            assert(mid[b - a - 1] == url@[b - 1]);
        }
        lemma_rtrim_exact(mid, b - a);
        assert(mid.subrange(0, b - a) =~= url@.subrange(a as int, b as int));
    }
    piece.to_owned()
}

/// Splits a comma-separated list into its pieces.
pub fn split_urls(s: &str) -> (r: Vec<String>)
    ensures
        r@.len() == split_commas(s@).len(),
        forall|k: int| 0 <= k < r@.len() ==> #[trigger] r@[k]@ =~= split_commas(s@)[k],
    decreases s@.len(),
{
    let n = s.unicode_len();
    let mut i: usize = 0;
    while i < n && s.get_char(i) != ','
        invariant
            i <= n,
            n == s@.len(),
            forall|j: int| 0 <= j < i ==> #[trigger] s@[j] != ',',
        decreases n - i,
    {
        i = i + 1;
    }
    proof {
        lemma_find_comma_exact(s@, i as int);
    }
    if i == n {
        let mut out: Vec<String> = Vec::new();
        out.push(s.to_owned());
        proof {
            assert(split_commas(s@) =~= seq![s@]);
        }
        out
    } else {
        let head = s.substring_char(0, i);
        let tail = s.substring_char(i + 1, n);
        let rest = split_urls(tail);
        let mut out: Vec<String> = Vec::new();
        out.push(head.to_owned());
        let m = rest.len();
        let mut t: usize = 0;
        while t < m
            invariant
                t <= m,
                m == rest@.len(),
                out@.len() == 1 + t,
                out@[0]@ =~= s@.subrange(0, i as int),
                forall|k: int| 0 <= k < t ==> #[trigger] out@[k + 1]@ == rest@[k]@,
            decreases m - t,
        {
            let piece = rest[t].clone();
            out.push(piece);
            t = t + 1;
        }
        proof {
            let parts = split_commas(s@);
            assert(parts == seq![s@.subrange(0, i as int)] + split_commas(
                s@.subrange(i + 1, n as int),
            ));
            assert(tail@ == s@.subrange(i + 1, n as int));
            assert forall|k: int| 0 <= k < out@.len() implies #[trigger] out@[k]@
                =~= parts[k] by {
                if k == 0 {
                    assert(parts[0] == s@.subrange(0, i as int));
                } else {
                    assert(out@[(k - 1) + 1]@ == rest@[k - 1]@);
                    assert(parts[k] == split_commas(tail@)[k - 1]);
                }
            }
        }
        out
    }
}

/// The numeric value of an optional environment variable, when it is a
/// string of digits whose value fits in `u64`.
pub open spec fn env_u64(s: Option<&str>) -> Option<int> {
    match s {
        Some(t) => {
            let bts = t.spec_bytes();
            if bts.len() >= 1 && all_dec_digits(bts) && dec_val(bts) <= u64::MAX {
                Some(dec_val(bts))
            } else {
                None
            }
        },
        None => None,
    }
}

/// The rejection, if any, that a set of raw environment values earns: the
/// first missing or malformed required variable decides.
pub open spec fn config_error_of(
    urls: Option<&str>,
    interval: Option<&str>,
    sma_n: Option<&str>,
) -> Option<ConfigError> {
    if urls is None {
        Some(ConfigError::MissingUrls)
    } else if interval is None {
        Some(ConfigError::MissingInterval)
    } else if env_u64(interval) is None || env_u64(interval) == Some(0int) {
        Some(ConfigError::BadInterval)
    } else if sma_n is None {
        Some(ConfigError::MissingSmaN)
    } else if env_u64(sma_n) is None || env_u64(sma_n) == Some(0int) || !(env_u64(sma_n)
        matches Some(v) && v <= usize::MAX) {
        Some(ConfigError::BadSmaN)
    } else {
        None
    }
}

impl AppConfig {
    /// Builds the configuration from raw environment values.
    ///
    /// `URLS`, `INTERVAL` and `SMA_N` are required; the poll period and the
    /// window size must be positive. `TIME_OUT`, `IP` and `PORT` fall back
    /// to their defaults when missing or malformed. The URL list is split
    /// on commas and each element is trimmed of surrounding brackets.
    pub fn from_env(
        urls: Option<&str>,
        interval: Option<&str>,
        sma_n: Option<&str>,
        time_out: Option<&str>,
        ip: Option<&str>,
        port: Option<&str>,
    ) -> (r: Result<AppConfig, ConfigError>)
        ensures
            r is Err <==> config_error_of(urls, interval, sma_n) is Some,
            r matches Err(e) ==> Some(e) == config_error_of(urls, interval, sma_n),
            r matches Ok(c) ==> ({
                &&& Some(c.interval_ms as int) == env_u64(interval)
                &&& Some(c.sma_n as int) == env_u64(sma_n)
                &&& c.time_out_ms as int == (match env_u64(time_out) {
                    Some(v) => v,
                    None => DEFAULT_TIME_OUT as int,
                })
                &&& c.ip@ == (match ip {
                    Some(s) => s@,
                    None => "127.0.0.1"@,
                })
                &&& c.port as int == (match env_u64(port) {
                    Some(v) => if v <= u16::MAX {
                        v
                    } else {
                        DEFAULT_PORT as int
                    },
                    None => DEFAULT_PORT as int,
                })
                &&& c.urls@.len() == split_commas(urls.unwrap()@).len()
                &&& forall|k: int|
                    0 <= k < c.urls@.len() ==> #[trigger] c.urls@[k]@ =~= trim_brackets(
                        split_commas(urls.unwrap()@)[k],
                    )
            }),
    {
        let urls_s = match urls {
            Some(u) => u,
            None => {
                return Err(ConfigError::MissingUrls);
            },
        };
        let interval_s = match interval {
            Some(x) => x,
            None => {
                return Err(ConfigError::MissingInterval);
            },
        };
        let interval_ms = match parse_u64(interval_s) {
            Some(v) => v,
            None => {
                return Err(ConfigError::BadInterval);
            },
        };
        if interval_ms == 0 {
            return Err(ConfigError::BadInterval);
        }
        let sma_s = match sma_n {
            Some(x) => x,
            None => {
                return Err(ConfigError::MissingSmaN);
            },
        };
        let sma_v = match parse_u64(sma_s) {
            Some(v) => v,
            None => {
                return Err(ConfigError::BadSmaN);
            },
        };
        if sma_v == 0 || sma_v > (usize::MAX as u64) {
            return Err(ConfigError::BadSmaN);
        }
        let time_out_ms = match time_out {
            Some(t) => match parse_u64(t) {
                Some(v) => v,
                None => DEFAULT_TIME_OUT,
            },
            None => DEFAULT_TIME_OUT,
        };
        let ip_s = match ip {
            Some(s) => s.to_owned(),
            None => default_ip().to_owned(),
        };
        let port_v = match port {
            Some(p) => match parse_u64(p) {
                Some(v) => if v <= (u16::MAX as u64) {
                    v as u16
                } else {
                    DEFAULT_PORT
                },
                None => DEFAULT_PORT,
            },
            None => DEFAULT_PORT,
        };
        let pieces = split_urls(urls_s);
        let mut cleaned: Vec<String> = Vec::new();
        let m = pieces.len();
        let mut t: usize = 0;
        while t < m
            invariant
                t <= m,
                m == pieces@.len(),
                cleaned@.len() == t,
                forall|k: int| 0 <= k < m ==> #[trigger] pieces@[k]@ =~= split_commas(
                    urls_s@,
                )[k],
                m == split_commas(urls_s@).len(),
                forall|k: int| 0 <= k < t ==> #[trigger] cleaned@[k]@ =~= trim_brackets(
                    split_commas(urls_s@)[k],
                ),
            decreases m - t,
        {
            let c = clean_urls(pieces[t].as_str());
            cleaned.push(c);
            t = t + 1;
        }
        Ok(AppConfig {
            urls: cleaned,
            interval_ms,
            sma_n: sma_v as usize,
            time_out_ms,
            ip: ip_s,
            port: port_v,
        })
    }
}

} // verus!
