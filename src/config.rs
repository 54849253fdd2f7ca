//! Server configuration and the two ways of setting it: command-line
//! arguments and a configuration file of `key = value` lines.

use vstd::prelude::*;

verus! {

/// Blank characters around keys and values.
pub open spec fn is_space(c: char) -> bool {
    c == ' ' || c == '\t' || c == '\r' || c == '\x0b' || c == '\x0c'
}

/// First position of `[a, b)` that is not blank, or `b`.
pub open spec fn skip_front(t: Seq<char>, a: int, b: int) -> int
    decreases b - a,
{
    if a < b && is_space(t[a]) {
        skip_front(t, a + 1, b)
    } else {
        a
    }
}

/// End of `[a, b)` once trailing blanks are cut off.
pub open spec fn skip_back(t: Seq<char>, a: int, b: int) -> int
    decreases b - a,
{
    if a < b && is_space(t[b - 1]) {
        skip_back(t, a, b - 1)
    } else {
        b
    }
}

/// First position of `c` in `[a, b)`, or `b`.
pub open spec fn find_char(t: Seq<char>, c: char, a: int, b: int) -> int
    decreases b - a,
{
    if a < b && t[a] != c {
        find_char(t, c, a + 1, b)
    } else {
        a
    }
}

/// `[a, b)` without blanks on either side.
pub open spec fn trimmed(t: Seq<char>, a: int, b: int) -> Seq<char> {
    t.subrange(skip_front(t, a, b), skip_back(t, skip_front(t, a, b), b))
}

pub open spec fn is_digit(c: char) -> bool {
    '0' <= c <= '9'
}

/// Value of a string of decimal digits.
pub open spec fn digits_value(s: Seq<char>) -> int
    decreases s.len(),
{
    if s.len() == 0 {
        0
    } else {
        digits_value(s.drop_last()) * 10 + (s.last() as int - '0' as int)
    }
}

/// The value of a non-empty string of decimal digits, when at most `bound`.
pub open spec fn bounded_digits(s: Seq<char>, bound: int) -> Option<int> {
    if s.len() > 0 && (forall|i: int| 0 <= i < s.len() ==> is_digit(#[trigger] s[i]))
        && digits_value(s) <= bound {
        Some(digits_value(s))
    } else {
        None
    }
}

/// A decimal integer with an optional sign, as `i32` (what `str::parse`
/// accepts for `i32`).
pub open spec fn int_value(s: Seq<char>) -> Option<i32> {
    if s.len() > 0 && s[0] == '-' {
        match bounded_digits(s.drop_first(), 0x8000_0000) {
            Some(v) => Some((-v) as i32),
            None => None,
        }
    } else {
        let d = if s.len() > 0 && s[0] == '+' { s.drop_first() } else { s };
        match bounded_digits(d, 0x7fff_ffff) {
            Some(v) => Some(v as i32),
            None => None,
        }
    }
}

/// An unsigned decimal integer that fits an `i32`.
pub open spec fn unsigned_value(s: Seq<char>) -> Option<i32> {
    match bounded_digits(s, 0x7fff_ffff) {
        Some(v) => Some(v as i32),
        None => None,
    }
}

proof fn lemma_digits_prefix(s: Seq<char>, i: int)
    requires
        0 <= i <= s.len(),
        forall|j: int| 0 <= j < s.len() ==> is_digit(#[trigger] s[j]),
    ensures
        0 <= digits_value(s.subrange(0, i)) <= digits_value(s),
    decreases s.len(),
{
    if i < s.len() {
        let p = s.drop_last();
        assert forall|j: int| 0 <= j < p.len() implies is_digit(#[trigger] p[j]) by {
            assert(p[j] == s[j]);
        }
        lemma_digits_prefix(p, i);
        assert(p.subrange(0, i) =~= s.subrange(0, i));
        lemma_digits_prefix(p, p.len() as int);
        assert(p.subrange(0, p.len() as int) =~= p);
    } else {
        assert(s.subrange(0, i) =~= s);
        if s.len() > 0 {
            let p = s.drop_last();
            assert forall|j: int| 0 <= j < p.len() implies is_digit(#[trigger] p[j]) by {
                assert(p[j] == s[j]);
            }
            lemma_digits_prefix(p, p.len() as int);
            assert(p.subrange(0, p.len() as int) =~= p);
        }
    }
}

fn is_space_char(c: char) -> (r: bool)
    ensures
        r == is_space(c),
{
    c == ' ' || c == '\t' || c == '\r' || c == '\x0b' || c == '\x0c'
}

fn skip_front_at(t: &str, a: usize, b: usize) -> (r: usize)
    requires
        a <= b <= t@.len(),
    ensures
        r == skip_front(t@, a as int, b as int),
        a <= r <= b,
{
    let mut i = a;
    while i < b && is_space_char(t.get_char(i))
        invariant
            a <= i <= b,
            b <= t@.len(),
            skip_front(t@, a as int, b as int) == skip_front(t@, i as int, b as int),
        decreases b - i,
    {
        i = i + 1;
    }
    i
}

fn skip_back_at(t: &str, a: usize, b: usize) -> (r: usize)
    requires
        a <= b <= t@.len(),
    ensures
        r == skip_back(t@, a as int, b as int),
        a <= r <= b,
{
    let mut j = b;
    while a < j && is_space_char(t.get_char(j - 1))
        invariant
            a <= j <= b,
            b <= t@.len(),
            skip_back(t@, a as int, b as int) == skip_back(t@, a as int, j as int),
        decreases j - a,
    {
        j = j - 1;
    }
    j
}

fn find_char_at(t: &str, c: char, a: usize, b: usize) -> (r: usize)
    requires
        a <= b <= t@.len(),
    ensures
        r == find_char(t@, c, a as int, b as int),
        a <= r <= b,
{
    let mut i = a;
    while i < b && t.get_char(i) != c
        invariant
            a <= i <= b,
            b <= t@.len(),
            find_char(t@, c, a as int, b as int) == find_char(t@, c, i as int, b as int),
        decreases b - i,
    {
        i = i + 1;
    }
    i
}

/// Whether `[a, b)` of `t` is the text `lit`.
fn text_is(t: &str, a: usize, b: usize, lit: &str) -> (r: bool)
    requires
        a <= b <= t@.len(),
    ensures
        r == (t@.subrange(a as int, b as int) == lit@),
{
    let n = lit.unicode_len();
    if b - a != n {
        return false;
    }
    let mut i: usize = 0;
    while i < n
        invariant
            i <= n,
            n == lit@.len(),
            a + n == b,
            b <= t@.len(),
            forall|k: int| 0 <= k < i ==> t@[a + k] == lit@[k],
        decreases n - i,
    {
        if t.get_char(a + i) != lit.get_char(i) {
            assert(t@.subrange(a as int, b as int)[i as int] != lit@[i as int]);
            return false;
        }
        i = i + 1;
    }
    assert(t@.subrange(a as int, b as int) =~= lit@);
    true
}

/// The value of the decimal digits in `[a, b)`, when there are some, only
/// digits, and the value is at most `bound`.
fn digits_at(t: &str, a: usize, b: usize, bound: i64) -> (r: Option<i64>)
    requires
        a <= b <= t@.len(),
        0 <= bound < 0x1_0000_0000,
    ensures
        r matches Some(v) ==> 0 <= v <= bound && bounded_digits(t@.subrange(a as int, b as int), bound as int) == Some(v as int),
        r is None ==> bounded_digits(t@.subrange(a as int, b as int), bound as int) is None,
{
    let ghost s = t@.subrange(a as int, b as int);
    if a == b {
        return None;
    }
    let mut acc: i64 = 0;
    let mut i = a;
    while i < b
        invariant
            a <= i <= b,
            b <= t@.len(),
            s == t@.subrange(a as int, b as int),
            0 <= bound < 0x1_0000_0000,
            forall|k: int| 0 <= k < i - a ==> is_digit(#[trigger] s[k]),
            acc == digits_value(s.subrange(0, i - a)),
            0 <= acc <= bound,
        decreases b - i,
    {
        let c = t.get_char(i);
        if c < '0' || c > '9' {
            assert(!is_digit(s[i - a]));
            return None;
        }
        let ghost p = s.subrange(0, i - a + 1);
        assert(p.drop_last() =~= s.subrange(0, i - a));
        assert(p.last() == c);
        acc = acc * 10 + (c as u32 - '0' as u32) as i64;
        i = i + 1;
        if acc > bound {
            proof {
                if forall|k: int| 0 <= k < s.len() ==> is_digit(#[trigger] s[k]) {
                    lemma_digits_prefix(s, i - a);
                }
            }
            return None;
        }
    }
    assert(s.subrange(0, i - a) =~= s);
    Some(acc)
}

/// Parses a decimal integer with an optional sign, as `str::parse::<i32>`
/// does.
pub fn parse_int(s: &str) -> (r: Option<i32>)
    ensures
        r == int_value(s@),
{
    let n = s.unicode_len();
    if n > 0 && s.get_char(0) == '-' {
        assert(s@.subrange(1, n as int) =~= s@.drop_first());
        match digits_at(s, 1, n, 0x8000_0000) {
            Some(v) => Some((-v) as i32),
            None => None,
        }
    } else {
        let start: usize = if n > 0 && s.get_char(0) == '+' { 1 } else { 0 };
        assert(start == 1 ==> s@.subrange(1, n as int) =~= s@.drop_first());
        assert(start == 0 ==> s@.subrange(0, n as int) =~= s@);
        match digits_at(s, start, n, 0x7fff_ffff) {
            Some(v) => Some(v as i32),
            None => None,
        }
    }
}

/// The server's settings, fixed at startup.
#[derive(Clone, Copy, Debug, PartialEq, Eq, Structural)]
pub struct ServerConfig {
    /// TCP port to listen on.
    pub port: i32,
    /// Whether a sender also receives its own frames.
    pub mirror: bool,
    /// Largest number of connections served at once.
    pub max_players: i32,
    /// Messages admitted per connection and second.
    pub max_rate: i32,
    /// Whether each broadcast is logged.
    pub debug_print: bool,
}

impl ServerConfig {
    /// Port 45565, mirror on, 10 players, 60 messages per second, no debug
    /// logging.
    pub fn standard() -> (c: ServerConfig)
        ensures
            c == (ServerConfig { port: 45565, mirror: true, max_players: 10, max_rate: 60, debug_print: false }),
    {
        ServerConfig { port: 45565, mirror: true, max_players: 10, max_rate: 60, debug_print: false }
    }
}

pub open spec fn starts_with(a: Seq<char>, p: Seq<char>) -> bool {
    p.len() <= a.len() && a.subrange(0, p.len() as int) == p
}

/// The text of an option `name=value` from position `n` up to the next `=`.
pub open spec fn option_value(a: Seq<char>, n: int) -> Seq<char> {
    a.subrange(n, find_char(a, '=', n, a.len() as int))
}

pub open spec fn with_port(c: ServerConfig, v: i32) -> ServerConfig {
    ServerConfig { port: v, mirror: c.mirror, max_players: c.max_players, max_rate: c.max_rate, debug_print: c.debug_print }
}

pub open spec fn with_mirror(c: ServerConfig, v: bool) -> ServerConfig {
    ServerConfig { port: c.port, mirror: v, max_players: c.max_players, max_rate: c.max_rate, debug_print: c.debug_print }
}

pub open spec fn with_max_players(c: ServerConfig, v: i32) -> ServerConfig {
    ServerConfig { port: c.port, mirror: c.mirror, max_players: v, max_rate: c.max_rate, debug_print: c.debug_print }
}

pub open spec fn with_max_rate(c: ServerConfig, v: i32) -> ServerConfig {
    ServerConfig { port: c.port, mirror: c.mirror, max_players: c.max_players, max_rate: v, debug_print: c.debug_print }
}

pub open spec fn with_debug(c: ServerConfig, v: bool) -> ServerConfig {
    ServerConfig { port: c.port, mirror: c.mirror, max_players: c.max_players, max_rate: c.max_rate, debug_print: v }
}

/// The settings after one command-line argument: `--no-mirror`, `--debug`,
/// a bare integer for the port, `--max-players=N` and `--max-rate=N`.
/// Anything else, or a value that does not parse, changes nothing.
pub open spec fn arg_effect(c: ServerConfig, a: Seq<char>) -> ServerConfig {
    if a == "--no-mirror"@ {
        with_mirror(c, false)
    } else if a == "--debug"@ {
        with_debug(c, true)
    } else if int_value(a) is Some {
        with_port(c, int_value(a)->Some_0)
    } else if starts_with(a, "--max-players="@) {
        match int_value(option_value(a, "--max-players="@.len() as int)) {
            Some(v) => with_max_players(c, v),
            None => c,
        }
    } else if starts_with(a, "--max-rate="@) {
        match int_value(option_value(a, "--max-rate="@.len() as int)) {
            Some(v) => with_max_rate(c, v),
            None => c,
        }
    } else {
        c
    }
}

/// The settings after the arguments, taken in order.
pub open spec fn args_effect(c: ServerConfig, args: Seq<Seq<char>>) -> ServerConfig
    decreases args.len(),
{
    if args.len() == 0 {
        c
    } else {
        arg_effect(args_effect(c, args.drop_last()), args.last())
    }
}

/// The settings after one `key = value` pair of the configuration file.
/// Unknown keys and values of the wrong shape change nothing.
pub open spec fn setting_effect(c: ServerConfig, key: Seq<char>, value: Seq<char>) -> ServerConfig {
    if key == "port"@ {
        match unsigned_value(value) {
            Some(v) => with_port(c, v),
            None => c,
        }
    } else if key == "mirror"@ {
        if value == "true"@ {
            with_mirror(c, true)
        } else if value == "false"@ {
            with_mirror(c, false)
        } else {
            c
        }
    } else if key == "max_players"@ {
        match unsigned_value(value) {
            Some(v) => with_max_players(c, v),
            None => c,
        }
    } else if key == "max_rate"@ {
        match unsigned_value(value) {
            Some(v) => with_max_rate(c, v),
            None => c,
        }
    } else if key == "debug_print"@ {
        if value == "true"@ {
            with_debug(c, true)
        } else if value == "false"@ {
            with_debug(c, false)
        } else {
            c
        }
    } else {
        c
    }
}

/// The settings after the line `[a, b)`: a key and a value around its first
/// `=`, each with blanks cut off. A line without `=` changes nothing.
pub open spec fn line_effect(c: ServerConfig, t: Seq<char>, a: int, b: int) -> ServerConfig {
    let eq = find_char(t, '=', a, b);
    if eq >= b {
        c
    } else {
        setting_effect(c, trimmed(t, a, eq), trimmed(t, eq + 1, b))
    }
}

/// The settings after the lines of `t` from position `start` on, taken in
/// order, so that a later line wins over an earlier one.
pub open spec fn text_effect(c: ServerConfig, t: Seq<char>, start: int) -> ServerConfig
    decreases t.len() - start
        via text_effect_decreases
{
    if start < 0 || start > t.len() {
        c
    } else {
        let e = find_char(t, '\n', start, t.len() as int);
        let next = line_effect(c, t, start, e);
        if e >= t.len() {
            next
        } else {
            text_effect(next, t, e + 1)
        }
    }
}

proof fn lemma_find_char_bounds(t: Seq<char>, c: char, a: int, b: int)
    requires
        a <= b,
    ensures
        a <= find_char(t, c, a, b) <= b,
    decreases b - a,
{
    if a < b && t[a] != c {
        lemma_find_char_bounds(t, c, a + 1, b);
    }
}

#[via_fn]
proof fn text_effect_decreases(c: ServerConfig, t: Seq<char>, start: int) {
    if !(start < 0 || start > t.len()) {
        lemma_find_char_bounds(t, '\n', start, t.len() as int);
    }
}

/// Whether `[0, n)` of `t` starts with the text `lit`.
fn has_prefix(t: &str, n: usize, lit: &str) -> (r: bool)
    requires
        n == t@.len(),
    ensures
        r == starts_with(t@, lit@),
{
    let m = lit.unicode_len();
    m <= n && text_is(t, 0, m, lit)
}

fn apply_arg(config: &mut ServerConfig, arg: &str)
    ensures
        *final(config) == arg_effect(*old(config), arg@),
{
    let n = arg.unicode_len();
    assert(arg@.subrange(0, n as int) =~= arg@);
    if text_is(arg, 0, n, "--no-mirror") {
        config.mirror = false;
    } else if text_is(arg, 0, n, "--debug") {
        config.debug_print = true;
    } else {
        match parse_int(arg) {
            Some(p) => {
                config.port = p;
            },
            None => {
                if has_prefix(arg, n, "--max-players=") {
                    let m = "--max-players=".unicode_len();
                    let e = find_char_at(arg, '=', m, n);
                    let v = arg.substring_char(m, e);
                    if let Some(k) = parse_int(v) {
                        config.max_players = k;
                    }
                } else if has_prefix(arg, n, "--max-rate=") {
                    let m = "--max-rate=".unicode_len();
                    let e = find_char_at(arg, '=', m, n);
                    let v = arg.substring_char(m, e);
                    if let Some(k) = parse_int(v) {
                        config.max_rate = k;
                    }
                }
            },
        }
    }
}

/// Applies command-line arguments to the settings, in order.
pub fn read_config_from_args(config: &mut ServerConfig, args: &Vec<String>)
    ensures
        *final(config) == args_effect(*old(config), args@.map_values(|s: String| s@)),
{
    let ghost all = args@.map_values(|s: String| s@);
    let mut i: usize = 0;
    while i < args.len()
        invariant
            i <= args@.len(),
            all == args@.map_values(|s: String| s@),
            *config == args_effect(*old(config), all.subrange(0, i as int)),
        decreases args@.len() - i,
    {
        let ghost before = *config;
        apply_arg(config, args[i].as_str());
        proof {
            let p = all.subrange(0, i + 1);
            assert(p.drop_last() =~= all.subrange(0, i as int));
            assert(p.last() == args@[i as int]@);
        }
        i = i + 1;
    }
    assert(all.subrange(0, i as int) =~= all);
}

/// Applies the `key = value` pair of the line `[a, b)`.
fn apply_line(config: &mut ServerConfig, t: &str, a: usize, b: usize)
    requires
        a <= b <= t@.len(),
    ensures
        *final(config) == line_effect(*old(config), t@, a as int, b as int),
{
    let eq = find_char_at(t, '=', a, b);
    if eq >= b {
        return;
    }
    let ka = skip_front_at(t, a, eq);
    let kb = skip_back_at(t, ka, eq);
    let va = skip_front_at(t, eq + 1, b);
    let vb = skip_back_at(t, va, b);
    if text_is(t, ka, kb, "port") {
        if let Some(v) = digits_at(t, va, vb, 0x7fff_ffff) {
            config.port = v as i32;
        }
    } else if text_is(t, ka, kb, "mirror") {
        if text_is(t, va, vb, "true") {
            config.mirror = true;
        } else if text_is(t, va, vb, "false") {
            config.mirror = false;
        }
    } else if text_is(t, ka, kb, "max_players") {
        if let Some(v) = digits_at(t, va, vb, 0x7fff_ffff) {
            config.max_players = v as i32;
        }
    } else if text_is(t, ka, kb, "max_rate") {
        if let Some(v) = digits_at(t, va, vb, 0x7fff_ffff) {
            config.max_rate = v as i32;
        }
    } else if text_is(t, ka, kb, "debug_print") {
        if text_is(t, va, vb, "true") {
            config.debug_print = true;
        } else if text_is(t, va, vb, "false") {
            config.debug_print = false;
        }
    }
}

/// Applies the lines of a configuration file's text to the settings, in
/// order.
pub fn apply_config_text(config: &mut ServerConfig, text: &str)
    ensures
        *final(config) == text_effect(*old(config), text@, 0),
{
    let n = text.unicode_len();
    let mut start: usize = 0;
    loop
        invariant
            start <= n,
            n == text@.len(),
            text_effect(*old(config), text@, 0) == text_effect(*config, text@, start as int),
        decreases n - start,
    {
        let e = find_char_at(text, '\n', start, n);
        apply_line(config, text, start, e);
        if e >= n {
            return;
        }
        start = e + 1;
    }
}

} // verus!
