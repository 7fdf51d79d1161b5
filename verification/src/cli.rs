// Command-line parsing for the capture core. Pure, so the security rule
// (no unauthenticated non-loopback bind) is stated and proved here.
//
// The Node host spawns this process and passes width/height/fps that are
// already capped by the entitlement layer; no tier logic lives here.
use std::time::Duration;

use vstd::prelude::*;

use crate::text::{chars_of, find_char, first_index, has_prefix, lemma_first_index, str_eq, str_starts_with};

verus! {

/// The capture core's configuration.
#[derive(Debug, Clone, PartialEq, Eq)]
pub struct Args {
    pub port: u16,
    pub bind: String,
    pub token: String,
    /// 0 = primary monitor, N = 1-based monitor index (multi-phone routing).
    pub monitor: usize,
    pub width: u32,
    pub height: u32,
    pub fps: u32,
    pub quality: u8,
    /// `"h264"` selects the native Android path; anything else runs MJPEG
    /// (the browser fallback).
    pub codec: String,
    /// Target bitrate of the H.264 path (the ladder's 720p30 rung).
    pub bitrate_kbps: u32,
}

/// `Args` with its strings taken as character sequences.
pub struct ArgsView {
    pub port: u16,
    pub bind: Seq<char>,
    pub token: Seq<char>,
    pub monitor: usize,
    pub width: u32,
    pub height: u32,
    pub fps: u32,
    pub quality: u8,
    pub codec: Seq<char>,
    pub bitrate_kbps: u32,
}

impl View for Args {
    type V = ArgsView;

    open spec fn view(&self) -> ArgsView {
        ArgsView {
            port: self.port,
            bind: self.bind@,
            token: self.token@,
            monitor: self.monitor,
            width: self.width,
            height: self.height,
            fps: self.fps,
            quality: self.quality,
            codec: self.codec@,
            bitrate_kbps: self.bitrate_kbps,
        }
    }
}

/// The defaults: loopback bind (ADB-reverse works, and a missing `--bind`
/// can never expose the desktop to the LAN), no token, primary monitor,
/// 720p30 at JPEG quality 70, MJPEG at 4000 kbps.
pub open spec fn default_args() -> ArgsView {
    ArgsView {
        port: 9578,
        bind: "127.0.0.1"@,
        token: Seq::empty(),
        monitor: 0,
        width: 1280,
        height: 720,
        fps: 30,
        quality: 70,
        codec: "mjpeg"@,
        bitrate_kbps: 4000,
    }
}

impl Default for Args {
    fn default() -> (r: Self)
        ensures
            r@ == default_args(),
    {
        Args {
            port: 9578,
            bind: String::from_str("127.0.0.1"),
            token: String::new(),
            monitor: 0,
            width: 1280,
            height: 720,
            fps: 30,
            quality: 70,
            codec: String::from_str("mjpeg"),
            bitrate_kbps: 4000,
        }
    }
}

/// An ASCII decimal digit.
pub open spec fn is_digit(c: char) -> bool {
    '0' <= c <= '9'
}

/// The value of a run of decimal digits (empty run = 0).
pub open spec fn digits_value(s: Seq<char>) -> nat
    decreases s.len(),
{
    if s.len() == 0 {
        0
    } else {
        digits_value(s.drop_last()) * 10 + ((s.last() as nat) - 48) as nat
    }
}

/// The digits of a number: the text after an optional leading `+`.
pub open spec fn number_digits(s: Seq<char>) -> Seq<char> {
    if s.len() > 0 && s[0] == '+' {
        s.skip(1)
    } else {
        s
    }
}

/// Every character is a decimal digit.
pub open spec fn all_digits(d: Seq<char>) -> bool {
    forall|i: int| 0 <= i < d.len() ==> is_digit(#[trigger] d[i])
}

/// What std's unsigned `str::parse` accepts: an optional `+`, then one or
/// more decimal digits, with a value of at most `max`.
pub open spec fn parse_number(s: Seq<char>, max: nat) -> Option<nat> {
    let d = number_digits(s);
    if d.len() > 0 && all_digits(d) && digits_value(d) <= max {
        Some(digits_value(d))
    } else {
        None
    }
}

proof fn lemma_digits_value_grows(d: Seq<char>, k: int)
    requires
        0 <= k <= d.len(),
        all_digits(d),
    ensures
        digits_value(d.take(k)) <= digits_value(d),
    decreases d.len(),
{
    if k < d.len() {
        let p = d.drop_last();
        assert(p.take(k) =~= d.take(k));
        assert forall|i: int| 0 <= i < p.len() implies is_digit(#[trigger] p[i]) by {
            assert(p[i] == d[i]);
        }
        lemma_digits_value_grows(p, k);
    } else {
        assert(d.take(k) =~= d);
    }
}

/// Parses an unsigned decimal number of at most `max`.
fn parse_bounded(s: &str, max: u64) -> (r: Option<u64>)
    ensures
        match parse_number(s@, max as nat) {
            Some(v) => r == Some(v as u64),
            None => r is None,
        },
{
    let c = chars_of(s);
    let start: usize = if c.len() > 0 && c[0] == '+' {
        1
    } else {
        0
    };
    let ghost d = number_digits(s@);
    assert(d =~= c@.skip(start as int));
    if start == c.len() {
        return None;
    }
    let mut v: u128 = 0;
    let mut i: usize = start;
    while i < c.len()
        invariant
            c@ == s@,
            start <= i <= c.len(),
            d =~= c@.skip(start as int),
            d == number_digits(s@),
            d.len() > 0,
            forall|j: int| 0 <= j < i - start ==> is_digit(#[trigger] d[j]),
            v == digits_value(d.take(i - start)),
            v <= max,
        decreases c.len() - i,
    {
        let ch = c[i];
        if !('0' <= ch && ch <= '9') {
            assert(!is_digit(d[i - start]));
            assert(parse_number(s@, max as nat) is None);
            return None;
        }
        let dv: u32 = (ch as u32) - 48;
        assert(d.take(i - start + 1).drop_last() =~= d.take(i - start));
        v = v * 10 + dv as u128;
        i = i + 1;
        if v > max as u128 {
            proof {
                if all_digits(d) {
                    lemma_digits_value_grows(d, i - start);
                }
                assert(parse_number(s@, max as nat) is None);
            }
            return None;
        }
    }
    assert(d.take(i - start) =~= d);
    Some(v as u64)
}

/// The flags the parser understands.
pub open spec fn is_known_flag(key: Seq<char>) -> bool {
    key == "--port"@ || key == "--bind"@ || key == "--token"@ || key == "--monitor"@
        || key == "--width"@ || key == "--height"@ || key == "--fps"@ || key == "--quality"@
        || key == "--codec"@
}

/// Applies one known flag and its value.
pub open spec fn apply_flag(a: ArgsView, key: Seq<char>, val: Seq<char>) -> Result<
    ArgsView,
    Seq<char>,
> {
    if key == "--port"@ {
        match parse_number(val, u16::MAX as nat) {
            Some(n) => Ok(ArgsView { port: n as u16, ..a }),
            None => Err("bad --port"@),
        }
    } else if key == "--bind"@ {
        Ok(ArgsView { bind: val, ..a })
    } else if key == "--token"@ {
        Ok(ArgsView { token: val, ..a })
    } else if key == "--monitor"@ {
        match parse_number(val, usize::MAX as nat) {
            Some(n) => Ok(ArgsView { monitor: n as usize, ..a }),
            None => Err("bad --monitor"@),
        }
    } else if key == "--width"@ {
        match parse_number(val, u32::MAX as nat) {
            Some(n) => Ok(ArgsView { width: n as u32, ..a }),
            None => Err("bad --width"@),
        }
    } else if key == "--height"@ {
        match parse_number(val, u32::MAX as nat) {
            Some(n) => Ok(ArgsView { height: n as u32, ..a }),
            None => Err("bad --height"@),
        }
    } else if key == "--fps"@ {
        match parse_number(val, u32::MAX as nat) {
            Some(n) => Ok(ArgsView { fps: n as u32, ..a }),
            None => Err("bad --fps"@),
        }
    } else if key == "--quality"@ {
        match parse_number(val, u8::MAX as nat) {
            Some(n) => Ok(ArgsView { quality: n as u8, ..a }),
            None => Err("bad --quality"@),
        }
    } else {
        Ok(ArgsView { codec: val, ..a })
    }
}

/// Reads `--key value` pairs from position `i` on, starting from `a`.
/// An unknown key is an error even without a value; a known key without a
/// value is an error.
pub open spec fn parse_from(argv: Seq<Seq<char>>, i: nat, a: ArgsView) -> Result<
    ArgsView,
    Seq<char>,
>
    decreases argv.len() - i,
{
    if i >= argv.len() {
        Ok(a)
    } else if !is_known_flag(argv[i as int]) {
        Err("unknown flag "@ + argv[i as int])
    } else if i + 1 >= argv.len() {
        Err(argv[i as int] + " needs a value"@)
    } else {
        match apply_flag(a, argv[i as int], argv[i + 1 as int]) {
            Ok(b) => parse_from(argv, i + 2, b),
            Err(e) => Err(e),
        }
    }
}

/// One octet of a dotted IPv4 address as std's `Ipv4Addr` parser reads
/// it: one to three decimal digits, no leading zero, at most 255.
pub open spec fn ipv4_octet(p: Seq<char>) -> bool {
    &&& 1 <= p.len() <= 3
    &&& all_digits(p)
    &&& (p.len() == 1 || p[0] != '0')
    &&& digits_value(p) <= 255
}

/// `s` is exactly `k` IPv4 octets separated by dots.
pub open spec fn ipv4_octets(s: Seq<char>, k: nat) -> bool
    decreases s.len(),
{
    match first_index(s, '.') {
        None => k == 1 && ipv4_octet(s),
        Some(i) => {
            proof {
                lemma_first_index(s, '.');
            }
            k > 1 && ipv4_octet(s.take(i as int)) && ipv4_octets(s.skip(i + 1 as int), (k - 1) as nat)
        },
    }
}

/// A loopback address: `localhost`, IPv6 `::1`, or an IPv4 literal in
/// 127.0.0.0/8 (`127.` followed by three octets). A host name that merely
/// starts with `127.` is not loopback.
pub open spec fn loopback(addr: Seq<char>) -> bool {
    ||| addr == "localhost"@
    ||| addr == "::1"@
    ||| has_prefix(addr, "127."@) && ipv4_octets(addr.skip(4), 3)
}

/// The first constraint that a configuration breaks, as its message.
pub open spec fn validation_error(a: ArgsView) -> Option<Seq<char>> {
    if a.token.len() == 0 && !loopback(a.bind) {
        Some(
            "refusing to bind "@ + a.bind
                + " without --token (AGENTS.md 7.6: no open bind without auth)"@,
        )
    } else if a.fps == 0 || a.fps > 60 {
        Some("--fps must be 1..=60 (v1 caps at 60)"@)
    } else if a.width == 0 || a.height == 0 || a.width > 1920 || a.height > 1080 {
        Some("--width/--height must fit within 1920x1080 (v1 SDR cap)"@)
    } else if a.quality < 1 || a.quality > 100 {
        Some("--quality must be 1..=100"@)
    } else {
        None
    }
}

/// A configuration the core may run with: authenticated unless loopback,
/// and inside the v1 1080p60 SDR ceiling.
pub open spec fn acceptable(a: ArgsView) -> bool {
    &&& a.token.len() > 0 || loopback(a.bind)
    &&& 1 <= a.fps <= 60
    &&& 1 <= a.width <= 1920
    &&& 1 <= a.height <= 1080
    &&& 1 <= a.quality <= 100
}

/// What `Args::parse` yields for an argument list.
pub open spec fn parse_args(argv: Seq<Seq<char>>) -> Result<ArgsView, Seq<char>> {
    match parse_from(argv, 0, default_args()) {
        Ok(a) => match validation_error(a) {
            None => Ok(a),
            Some(e) => Err(e),
        },
        Err(e) => Err(e),
    }
}

/// The character sequences of an argument vector.
pub open spec fn arg_views(argv: Seq<String>) -> Seq<Seq<char>> {
    argv.map_values(|s: String| s@)
}

/// Microseconds between frames for a frame-rate cap (a cap of 0 counts as 1).
pub open spec fn frame_interval_us(fps: u32) -> nat {
    1_000_000nat / (if fps == 0 { 1nat } else { fps as nat })
}

/// Name for what `Duration::from_micros` returns.
pub uninterp spec fn duration_of_micros(micros: u64) -> Duration;

/// std's `Duration::from_micros`: the duration of `micros` microseconds.
#[verifier::external_body]
fn duration_from_micros(micros: u64) -> (d: Duration)
    ensures
        d == duration_of_micros(micros),
{
    Duration::from_micros(micros)
}

impl Args {
    /// Parse `--key value` pairs. Unknown keys are rejected rather than
    /// ignored so a typo in a flag can't silently fall back to an insecure
    /// default.
    ///
    /// # Errors
    /// Returns a message describing the offending flag or constraint.
    pub fn parse(argv: Vec<String>) -> (res: Result<Self, String>)
        ensures
            match parse_args(arg_views(argv@)) {
                Ok(v) => res matches Ok(a) && a@ == v,
                Err(e) => res matches Err(m) && m@ == e,
            },
            res matches Ok(a) ==> acceptable(a@),
    {
        let ghost views = arg_views(argv@);
        let mut out = Self::default();
        let mut i: usize = 0;
        while i < argv.len()
            invariant
                views == arg_views(argv@),
                i <= argv.len() + 1,
                parse_from(views, i as nat, out@) == parse_from(views, 0, default_args()),
            decreases argv.len() + 1 - i,
        {
            let key = argv[i].as_str();
            assert(key@ == views[i as int]);
            if !Self::known(key) {
                let mut m = String::from_str("unknown flag ");
                m.append(key);
                return Err(m);
            }
            if i + 1 >= argv.len() {
                let mut m = String::from_str(key);
                m.append(" needs a value");
                return Err(m);
            }
            let val = argv[i + 1].as_str();
            assert(val@ == views[i + 1]);
            match Self::apply(out, key, val) {
                Ok(next) => {
                    out = next;
                },
                Err(e) => {
                    return Err(e);
                },
            }
            i = i + 2;
        }
        match out.validate() {
            Ok(()) => {
                proof {
                    lemma_validated_is_acceptable(out@);
                }
                Ok(out)
            },
            Err(e) => Err(e),
        }
    }

    fn known(key: &str) -> (r: bool)
        ensures
            r == is_known_flag(key@),
    {
        str_eq(key, "--port") || str_eq(key, "--bind") || str_eq(key, "--token") || str_eq(
            key,
            "--monitor",
        ) || str_eq(key, "--width") || str_eq(key, "--height") || str_eq(key, "--fps")
            || str_eq(key, "--quality") || str_eq(key, "--codec")
    }

    fn apply(a: Args, key: &str, val: &str) -> (res: Result<Args, String>)
        requires
            is_known_flag(key@),
        ensures
            match apply_flag(a@, key@, val@) {
                Ok(v) => res matches Ok(b) && b@ == v,
                Err(e) => res matches Err(m) && m@ == e,
            },
    {
        let mut a = a;
        if str_eq(key, "--port") {
            match parse_bounded(val, 65535) {
                Some(n) => {
                    a.port = n as u16;
                    Ok(a)
                },
                None => Err(String::from_str("bad --port")),
            }
        } else if str_eq(key, "--bind") {
            a.bind = String::from_str(val);
            Ok(a)
        } else if str_eq(key, "--token") {
            a.token = String::from_str(val);
            Ok(a)
        } else if str_eq(key, "--monitor") {
            match parse_bounded(val, usize::MAX as u64) {
                Some(n) => {
                    a.monitor = n as usize;
                    Ok(a)
                },
                None => Err(String::from_str("bad --monitor")),
            }
        } else if str_eq(key, "--width") {
            match parse_bounded(val, 4294967295) {
                Some(n) => {
                    a.width = n as u32;
                    Ok(a)
                },
                None => Err(String::from_str("bad --width")),
            }
        } else if str_eq(key, "--height") {
            match parse_bounded(val, 4294967295) {
                Some(n) => {
                    a.height = n as u32;
                    Ok(a)
                },
                None => Err(String::from_str("bad --height")),
            }
        } else if str_eq(key, "--fps") {
            match parse_bounded(val, 4294967295) {
                Some(n) => {
                    a.fps = n as u32;
                    Ok(a)
                },
                None => Err(String::from_str("bad --fps")),
            }
        } else if str_eq(key, "--quality") {
            match parse_bounded(val, 255) {
                Some(n) => {
                    a.quality = n as u8;
                    Ok(a)
                },
                None => Err(String::from_str("bad --quality")),
            }
        } else {
            a.codec = String::from_str(val);
            Ok(a)
        }
    }

    /// Never listen on a non-loopback address without a pairing token, and
    /// keep the stream inside the v1 1080p60 SDR ceiling.
    ///
    /// # Errors
    /// Returns a message describing the violated constraint.
    pub fn validate(&self) -> (res: Result<(), String>)
        ensures
            match validation_error(self@) {
                None => res is Ok,
                Some(e) => res matches Err(m) && m@ == e,
            },
            res is Ok <==> acceptable(self@),
    {
        proof {
            lemma_validated_is_acceptable(self@);
        }
        if self.token.as_str().is_empty() && !is_loopback(self.bind.as_str()) {
            let mut m = String::from_str("refusing to bind ");
            m.append(self.bind.as_str());
            m.append(" without --token (AGENTS.md 7.6: no open bind without auth)");
            return Err(m);
        }
        if self.fps == 0 || self.fps > 60 {
            return Err(String::from_str("--fps must be 1..=60 (v1 caps at 60)"));
        }
        if self.width == 0 || self.height == 0 || self.width > 1920 || self.height > 1080 {
            return Err(String::from_str("--width/--height must fit within 1920x1080 (v1 SDR cap)"));
        }
        if self.quality < 1 || self.quality > 100 {
            return Err(String::from_str("--quality must be 1..=100"));
        }
        Ok(())
    }

    /// Microseconds between frames at the configured frame-rate cap.
    pub fn frame_interval_micros(&self) -> (us: u64)
        ensures
            us as nat == frame_interval_us(self.fps),
    {
        let fps: u64 = if self.fps == 0 {
            1
        } else {
            self.fps as u64
        };
        1_000_000 / fps
    }

    /// Frame interval derived from the fps cap.
    pub fn frame_interval(&self) -> (d: Duration)
        ensures
            d == duration_of_micros(frame_interval_us(self.fps) as u64),
    {
        duration_from_micros(self.frame_interval_micros())
    }
}

/// A configuration that passes validation is acceptable, and the other way
/// round.
pub proof fn lemma_validated_is_acceptable(a: ArgsView)
    ensures
        validation_error(a) is None <==> acceptable(a),
{
}

/// The defaults pass validation: loopback without a token, 720p30, quality
/// 70, MJPEG at 4000 kbps.
pub proof fn law_defaults_are_acceptable()
    ensures
        acceptable(default_args()),
        validation_error(default_args()) is None,
{
    reveal_strlit("127.0.0.1");
    reveal_strlit("127.");
    let s = "127.0.0.1"@;
    assert(s.take(4) =~= "127."@);
    let t = s.skip(4);
    assert(t =~= seq!['0', '.', '0', '.', '1']);
    let u = t.skip(2);
    assert(u =~= seq!['0', '.', '1']);
    let w = u.skip(2);
    assert(w =~= seq!['1']);
    assert(w.drop_first().len() == 0);
    assert(first_index(w.drop_first(), '.') is None);
    assert(first_index(w, '.') is None);
    assert(digits_value(w.drop_last()) == 0);
    assert(digits_value(w) == 1);
    assert(ipv4_octet(w));
    assert(ipv4_octets(w, 1));
    assert(first_index(u.drop_first(), '.') == Some(0nat));
    assert(first_index(u, '.') == Some(1nat));
    assert(u.take(1) =~= seq!['0']);
    assert(digits_value(u.take(1).drop_last()) == 0);
    assert(digits_value(u.take(1)) == 0);
    assert(ipv4_octet(u.take(1)));
    assert(ipv4_octets(u, 2));
    assert(first_index(t.drop_first(), '.') == Some(0nat));
    assert(first_index(t, '.') == Some(1nat));
    assert(t.take(1) =~= seq!['0']);
    assert(digits_value(t.take(1).drop_last()) == 0);
    assert(digits_value(t.take(1)) == 0);
    assert(ipv4_octet(t.take(1)));
    assert(ipv4_octets(t, 3));
    assert(loopback(s));
}

/// Whether `c[a..b]` is one IPv4 octet.
fn octet_at(c: &Vec<char>, a: usize, b: usize) -> (r: bool)
    requires
        a <= b <= c@.len(),
    ensures
        r == ipv4_octet(c@.subrange(a as int, b as int)),
{
    let ghost p = c@.subrange(a as int, b as int);
    if b - a < 1 || b - a > 3 {
        return false;
    }
    let mut v: u32 = 0;
    let mut i = a;
    while i < b
        invariant
            a <= i <= b <= c@.len(),
            1 <= b - a <= 3,
            p == c@.subrange(a as int, b as int),
            forall|j: int| 0 <= j < i - a ==> is_digit(#[trigger] p[j]),
            v == digits_value(p.take(i - a)),
            i - a == 0 ==> v == 0,
            i - a == 1 ==> v <= 9,
            i - a == 2 ==> v <= 99,
            i - a == 3 ==> v <= 999,
        decreases b - i,
    {
        let ch = c[i];
        if !('0' <= ch && ch <= '9') {
            assert(!is_digit(p[i - a]));
            return false;
        }
        assert(p.take(i - a + 1).drop_last() =~= p.take(i - a));
        v = v * 10 + ((ch as u32) - 48);
        i = i + 1;
    }
    assert(p.take(b - a) =~= p);
    (b - a == 1 || c[a] != '0') && v <= 255
}

/// Loopback check: `localhost`, IPv6 `::1`, or an IPv4 literal in
/// 127.0.0.0/8.
pub fn is_loopback(addr: &str) -> (r: bool)
    ensures
        r == loopback(addr@),
{
    if str_eq(addr, "localhost") || str_eq(addr, "::1") {
        return true;
    }
    if !str_starts_with(addr, "127.") {
        return false;
    }
    proof {
        reveal_strlit("127.");
    }
    let c = chars_of(addr);
    let n = c.len();
    assert(loopback(addr@) == ipv4_octets(c@.skip(4), 3));
    let mut start: usize = 4;
    let mut k: u32 = 3;
    loop
        invariant
            n == c@.len(),
            4 <= start <= n,
            1 <= k <= 3,
            loopback(addr@) == ipv4_octets(c@.skip(start as int), k as nat),
        decreases n - start,
    {
        let ghost rest = c@.skip(start as int);
        proof {
            lemma_first_index(rest, '.');
        }
        match find_char(&c, start, '.') {
            None => {
                assert(rest =~= c@.subrange(start as int, c@.len() as int));
                return k == 1 && octet_at(&c, start, n);
            },
            Some(e) => {
                assert(rest.take(e - start) =~= c@.subrange(start as int, e as int));
                if k <= 1 || !octet_at(&c, start, e) {
                    return false;
                }
                assert(rest.skip(e - start + 1) =~= c@.skip(e + 1));
                start = e + 1;
                k = k - 1;
            },
        }
    }
}

/// Security law: whatever the arguments, a configuration that `Args::parse`
/// accepts either carries a pairing token or listens on a loopback address,
/// and stays inside the v1 1080p60 SDR ceiling.
pub proof fn law_parse_never_exposes_without_token(argv: Seq<Seq<char>>)
    ensures
        parse_args(argv) matches Ok(a) ==> acceptable(a) && (a.token.len() > 0 || loopback(
            a.bind,
        )),
{
}

} // verus!
