//! Error values written by hand, and the small parsers that produce them.
use vstd::prelude::*;

use crate::error_framework::{decimal, decimal_text, io_error_text, joined, parse_int_error_text};
use crate::helpers::string_from_chars;
use crate::text::{chars_of, parse_u16, parse_u32, trim_text, trimmed, unsigned_text_value};

pub use crate::error_framework::{ConfigError, NotFoundError};

verus! {

/// What the application can fail with. A `Context` error says what was being done when
/// the error it carries happened.
pub enum AppError {
    Io(std::io::Error),
    Parse(std::num::ParseIntError),
    NotFound(String),
    Unauthorized { user: String, action: String },
    Context { message: String, cause: Box<AppError> },
}

/// The error that caused an [`AppError`].
pub enum AppErrorSource<'a> {
    Io(&'a std::io::Error),
    Parse(&'a std::num::ParseIntError),
    App(&'a AppError),
}

impl AppError {
    /// The message of the error. A `Context` error reads as its message alone.
    pub fn to_string(&self) -> (r: String)
        ensures
            self is Io ==> "I/O error: "@.is_prefix_of(r@),
            self is Parse ==> "parse error: "@.is_prefix_of(r@),
            self matches AppError::NotFound(name) ==> r@ == "not found: "@ + name@,
            self matches AppError::Unauthorized { user, action } ==> r@ == "user '"@ + user@
                + "' cannot '"@ + action@ + "'"@,
            self matches AppError::Context { message, .. } ==> r@ == message@,
    {
        match self {
            AppError::Io(e) => {
                let text = io_error_text(e);
                joined("I/O error: ", text.as_str())
            },
            AppError::Parse(e) => {
                let text = parse_int_error_text(e);
                joined("parse error: ", text.as_str())
            },
            AppError::NotFound(name) => joined("not found: ", name.as_str()),
            AppError::Unauthorized { user, action } => {
                let mut r = joined("user '", user.as_str());
                r.append("' cannot '");
                r.append(action.as_str());
                r.append("'");
                r
            },
            AppError::Context { message, .. } => message.clone(),
        }
    }

    /// The error that caused this one: the wrapped I/O or parse error, or the error a
    /// `Context` carries. The other kinds are where a chain of causes ends.
    pub fn source(&self) -> (r: Option<AppErrorSource<'_>>)
        ensures
            self matches AppError::Io(e) ==> r == Some(AppErrorSource::Io(&e)),
            self matches AppError::Parse(e) ==> r == Some(AppErrorSource::Parse(&e)),
            self matches AppError::Context { cause, .. } ==> r == Some(AppErrorSource::App(&*cause)),
            self is NotFound || self is Unauthorized ==> r is None,
    {
        match self {
            AppError::Io(e) => Some(AppErrorSource::Io(e)),
            AppError::Parse(e) => Some(AppErrorSource::Parse(e)),
            AppError::Context { cause, .. } => Some(AppErrorSource::App(&**cause)),
            _ => None,
        }
    }
}

/// Wraps the error of `result`, if any, in a `Context` error with `message`; a success
/// passes through.
pub fn with_context<T>(message: String, result: Result<T, AppError>) -> (r: Result<T, AppError>)
    ensures
        result matches Ok(v) ==> r == Ok::<T, AppError>(v),
        result matches Err(e) ==> (r matches Err(AppError::Context { message: m, cause }) && m == message
            && *cause == e),
{
    match result {
        Ok(v) => Ok(v),
        Err(e) => Err(AppError::Context { message, cause: Box::new(e) }),
    }
}

/// Reads a port number: `s` without its surrounding white space must be a decimal number
/// that fits in a `u32` (else the parse error), and at most 65535 (else a `NotFound`
/// error that names it as out of range).
pub fn parse_port(s: &str) -> (r: Result<u16, AppError>)
    ensures
        (match unsigned_text_value(trimmed(s@)) {
            Some(n) => if n <= 65535 {
                r == Ok::<u16, AppError>(n as u16)
            } else if n <= u32::MAX {
                r matches Err(AppError::NotFound(m)) && m@ == "port "@ + decimal(n) + " out of range"@
            } else {
                r matches Err(AppError::Parse(_))
            },
            None => r matches Err(AppError::Parse(_)),
        }),
{
    let t = trim_text(s);
    match parse_u32(t) {
        Err(e) => Err(AppError::Parse(e)),
        Ok(n) => {
            if n > 65535 {
                let mut m = joined("port ", decimal_text(n as u64).as_str());
                m.append(" out of range");
                Err(AppError::NotFound(m))
            } else {
                Ok(n as u16)
            }
        },
    }
}

/// Why a configuration text was refused.
pub enum ParseConfigError {
    BadInt { field: &'static str, source: std::num::ParseIntError },
    MissingField(&'static str),
}

impl ParseConfigError {
    /// The message of the error.
    pub fn to_string(&self) -> (r: String)
        ensures
            self matches ParseConfigError::BadInt { field, .. } ==> r@ == "field '"@ + field@
                + "' is not a valid integer"@,
            self matches ParseConfigError::MissingField(field) ==> r@ == "required field '"@ + field@
                + "' is missing"@,
    {
        match self {
            ParseConfigError::BadInt { field, .. } => {
                let mut r = joined("field '", field);
                r.append("' is not a valid integer");
                r
            },
            ParseConfigError::MissingField(field) => {
                let mut r = joined("required field '", field);
                r.append("' is missing");
                r
            },
        }
    }

    /// The parse error of a field that is not a valid integer.
    pub fn source(&self) -> (r: Option<&std::num::ParseIntError>)
        ensures
            self matches ParseConfigError::BadInt { source, .. } ==> r == Some(source),
            self is MissingField ==> r is None,
    {
        match self {
            ParseConfigError::BadInt { source, .. } => Some(source),
            ParseConfigError::MissingField(_) => None,
        }
    }
}

/// The first index at or after `i` where `s` holds `c`, or the length of `s`.
pub open spec fn find_from(s: Seq<char>, c: char, i: int) -> int
    decreases s.len() - i,
{
    if i >= s.len() {
        s.len() as int
    } else if s[i] == c {
        i
    } else {
        find_from(s, c, i + 1)
    }
}

/// Where `find_from` lands: between `i` and the end, on a `c` unless at the end, and past
/// no other `c`.
pub proof fn lemma_find_from(s: Seq<char>, c: char, i: int)
    requires
        0 <= i <= s.len(),
    ensures
        i <= find_from(s, c, i) <= s.len(),
        find_from(s, c, i) < s.len() ==> s[find_from(s, c, i)] == c,
        forall|k: int| i <= k < find_from(s, c, i) ==> s[k] != c,
    decreases s.len() - i,
{
    if i < s.len() && s[i] != c {
        lemma_find_from(s, c, i + 1);
    }
}

/// What one line of a configuration does to the host and port read so far, and whether
/// it stops the parse. A line `key=value` sets the host when the key is exactly `host`
/// and the port when it is exactly `port`, each to the value without its surrounding white
/// space; a port that is no `u16` stops the parse. Other lines change nothing.
pub open spec fn line_update(line: Seq<char>, host: Option<Seq<char>>, port: Option<u16>) -> (
    bool,
    Option<Seq<char>>,
    Option<u16>,
) {
    let eq = find_from(line, '=', 0);
    if eq >= line.len() {
        (false, host, port)
    } else {
        let key = line.subrange(0, eq);
        let value = trimmed(line.subrange(eq + 1, line.len() as int));
        if key == "host"@ {
            (false, Some(value), port)
        } else if key == "port"@ {
            match unsigned_text_value(value) {
                Some(n) => if n <= u16::MAX {
                    (false, host, Some(n as u16))
                } else {
                    (true, host, port)
                },
                None => (true, host, port),
            }
        } else {
            (false, host, port)
        }
    }
}

/// The outcome of the lines of `s` from index `pos` on, given the host and port read
/// before them: whether a bad port stopped the parse, and the host and port read.
pub open spec fn scan_lines(s: Seq<char>, pos: int, host: Option<Seq<char>>, port: Option<u16>) -> (
    bool,
    Option<Seq<char>>,
    Option<u16>,
)
    decreases s.len() - pos,
{
    if pos < 0 || pos > s.len() {
        (false, host, port)
    } else {
        let end = find_from(s, '\n', pos);
        proof {
            lemma_find_from(s, '\n', pos);
        }
        let step = line_update(s.subrange(pos, end), host, port);
        if step.0 || end >= s.len() {
            step
        } else {
            scan_lines(s, end + 1, step.1, step.2)
        }
    }
}

/// The outcome of a whole configuration text, read line by line.
pub open spec fn config_outcome(s: Seq<char>) -> (bool, Option<Seq<char>>, Option<u16>) {
    scan_lines(s, 0, None, None)
}

proof fn lemma_find_shift(a: Seq<char>, b: Seq<char>, c: char, i: int)
    requires
        0 <= i <= b.len(),
    ensures
        find_from(a + b, c, a.len() + i) == a.len() + find_from(b, c, i),
    decreases b.len() - i,
{
    if i < b.len() {
        assert((a + b)[a.len() + i] == b[i]);
        if b[i] != c {
            lemma_find_shift(a, b, c, i + 1);
        }
    }
}

proof fn lemma_find_prefix(a: Seq<char>, b: Seq<char>, c: char, i: int)
    requires
        0 <= i <= a.len(),
        find_from(a, c, i) < a.len(),
    ensures
        find_from(a + b, c, i) == find_from(a, c, i),
    decreases a.len() - i,
{
    assert((a + b)[i] == a[i]);
    if a[i] != c {
        lemma_find_prefix(a, b, c, i + 1);
    }
}

/// Scanning the lines of `a + b` from a position inside `b` is scanning `b` alone.
proof fn lemma_scan_shift(a: Seq<char>, b: Seq<char>, i: int, host: Option<Seq<char>>, port: Option<u16>)
    requires
        0 <= i <= b.len(),
    ensures
        scan_lines(a + b, a.len() + i, host, port) == scan_lines(b, i, host, port),
    decreases b.len() - i,
{
    let s = a + b;
    lemma_find_shift(a, b, '\n', i);
    lemma_find_from(b, '\n', i);
    let end = find_from(b, '\n', i);
    assert(s.subrange(a.len() + i, a.len() + end) =~= b.subrange(i, end));
    let step = line_update(b.subrange(i, end), host, port);
    if !step.0 && end < b.len() {
        lemma_scan_shift(a, b, end + 1, step.1, step.2);
        assert(a.len() + end + 1 == a.len() + (end + 1));
    }
}

/// Two texts that agree up to and including a line break at the end of `a`, and whose
/// scans from there agree, scan alike from any line start inside `a`.
proof fn lemma_scan_common_prefix(
    a: Seq<char>,
    b1: Seq<char>,
    b2: Seq<char>,
    pos: int,
    host: Option<Seq<char>>,
    port: Option<u16>,
)
    requires
        a.len() > 0,
        a.last() == '\n',
        0 <= pos <= a.len(),
        forall|h: Option<Seq<char>>, p: Option<u16>|
            #[trigger] scan_lines(a + b1, a.len() as int, h, p) == scan_lines(a + b2, a.len() as int, h, p),
    ensures
        scan_lines(a + b1, pos, host, port) == scan_lines(a + b2, pos, host, port),
    decreases a.len() - pos,
{
    if pos < a.len() {
        lemma_find_from(a, '\n', pos);
        let end = find_from(a, '\n', pos);
        if end >= a.len() {
            assert(a[a.len() - 1] != '\n');
        }
        lemma_find_prefix(a, b1, '\n', pos);
        lemma_find_prefix(a, b2, '\n', pos);
        assert((a + b1).subrange(pos, end) =~= a.subrange(pos, end));
        assert((a + b2).subrange(pos, end) =~= a.subrange(pos, end));
        let step = line_update(a.subrange(pos, end), host, port);
        if !step.0 {
            lemma_scan_common_prefix(a, b1, b2, end + 1, step.1, step.2);
        }
    }
}

/// An empty line changes nothing and does not stop the scan: scanning from an empty
/// line is scanning from the line after it.
pub proof fn law_empty_line_changes_nothing(
    s: Seq<char>,
    pos: int,
    host: Option<Seq<char>>,
    port: Option<u16>,
)
    requires
        0 <= pos < s.len(),
        s[pos] == '\n',
    ensures
        scan_lines(s, pos, host, port) == scan_lines(s, pos + 1, host, port),
{
    assert(find_from(s, '\n', pos) == pos);
    let line = s.subrange(pos, pos);
    assert(line.len() == 0);
    assert(find_from(line, '=', 0) == 0);
    assert(line_update(line, host, port) == (false, host, port));
}

/// A blank line between two parts of a configuration is skipped: the text reads as if
/// the two parts were separated by a single line break, so the lines after it are read.
pub proof fn law_blank_line_is_skipped(s1: Seq<char>, s2: Seq<char>)
    ensures
        config_outcome(s1 + seq!['\n', '\n'] + s2) == config_outcome(s1 + seq!['\n'] + s2),
{
    let a = s1 + seq!['\n'];
    let b1 = seq!['\n'] + s2;
    assert(s1 + seq!['\n', '\n'] + s2 =~= a + b1);
    assert(s1 + seq!['\n'] + s2 =~= a + s2);
    assert(a.last() == '\n');
    assert forall|h: Option<Seq<char>>, p: Option<u16>|
        #[trigger] scan_lines(a + b1, a.len() as int, h, p) == scan_lines(a + s2, a.len() as int, h, p) by {
        assert((a + b1)[a.len() as int] == '\n');
        law_empty_line_changes_nothing(a + b1, a.len() as int, h, p);
        let a2 = a + seq!['\n'];
        assert(a + b1 =~= a2 + s2);
        lemma_scan_shift(a2, s2, 0, h, p);
        lemma_scan_shift(a, s2, 0, h, p);
    }
    lemma_scan_common_prefix(a, b1, s2, 0, None, None);
}

spec fn text_of(o: Option<String>) -> Option<Seq<char>> {
    match o {
        Some(t) => Some(t@),
        None => None,
    }
}

/// Whether the characters of `chars` from `start` to `stop` are those of `word`.
fn segment_equals(chars: &Vec<char>, start: usize, stop: usize, word: &Vec<char>) -> (r: bool)
    requires
        start <= stop <= chars@.len(),
    ensures
        r == (chars@.subrange(start as int, stop as int) == word@),
{
    if stop - start != word.len() {
        return false;
    }
    let mut i: usize = 0;
    while i < word.len()
        invariant
            start <= stop <= chars@.len(),
            stop - start == word@.len(),
            i <= word@.len(),
            forall|k: int| 0 <= k < i ==> chars@[start + k] == word@[k],
        decreases word@.len() - i,
    {
        if chars[start + i] != word[i] {
            return false;
        }
        i = i + 1;
    }
    proof {
        assert(chars@.subrange(start as int, stop as int) =~= word@);
    }
    true
}

/// The characters of `chars` from `start` to `stop`.
pub(crate) fn segment(chars: &Vec<char>, start: usize, stop: usize) -> (r: Vec<char>)
    requires
        start <= stop <= chars@.len(),
    ensures
        r@ == chars@.subrange(start as int, stop as int),
{
    let mut r: Vec<char> = Vec::new();
    let mut i = start;
    while i < stop
        invariant
            start <= i <= stop <= chars@.len(),
            r@ == chars@.subrange(start as int, i as int),
        decreases stop - i,
    {
        r.push(chars[i]);
        i = i + 1;
    }
    r
}

/// Reads the host and the port from a configuration text of `key=value` lines. The
/// parse stops at the first `port` line whose value is no `u16`; otherwise the last
/// `host` and the last `port` line count, and each must be present.
pub fn parse_config(input: &str) -> (r: Result<(String, u16), ParseConfigError>)
    ensures
        ({
            let outcome = config_outcome(input@);
            if outcome.0 {
                r matches Err(ParseConfigError::BadInt { field, .. }) && field@ == "port"@
            } else {
                match (outcome.1, outcome.2) {
                    (None, _) => r matches Err(ParseConfigError::MissingField(f)) && f@ == "host"@,
                    (Some(_), None) => r matches Err(ParseConfigError::MissingField(f)) && f@ == "port"@,
                    (Some(h), Some(p)) => r matches Ok((hs, pp)) && hs@ == h && pp == p,
                }
            }
        }),
{
    let chars = chars_of(input);
    let len = chars.len();
    let host_word = vec!['h', 'o', 's', 't'];
    let port_word = vec!['p', 'o', 'r', 't'];
    proof {
        reveal_strlit("host");
        reveal_strlit("port");
        assert(host_word@ =~= "host"@);
        assert(port_word@ =~= "port"@);
    }
    let mut host: Option<String> = None;
    let mut port: Option<u16> = None;
    let mut pos: usize = 0;
    loop
        invariant_except_break
            pos <= len,
            scan_lines(chars@, 0, None, None) == scan_lines(chars@, pos as int, text_of(host), port),
        invariant
            len == chars@.len(),
            chars@ == input@,
            host_word@ == "host"@,
            port_word@ == "port"@,
        ensures
            !config_outcome(input@).0,
            config_outcome(input@).1 == text_of(host),
            config_outcome(input@).2 == port,
        decreases len - pos,
    {
        let mut end = pos;
        while end < len && chars[end] != '\n'
            invariant
                pos <= end <= len,
                len == chars@.len(),
                find_from(chars@, '\n', pos as int) == find_from(chars@, '\n', end as int),
            decreases len - end,
        {
            end = end + 1;
        }
        let ghost s = chars@;
        let ghost line = s.subrange(pos as int, end as int);
        assert(find_from(s, '\n', pos as int) == end as int);
        let mut eq = pos;
        while eq < end && chars[eq] != '='
            invariant
                pos <= eq <= end <= len,
                len == chars@.len(),
                line == chars@.subrange(pos as int, end as int),
                find_from(line, '=', 0) == find_from(line, '=', eq - pos),
            decreases end - eq,
        {
            eq = eq + 1;
        }
        assert(find_from(line, '=', 0) == eq - pos);
        let ghost before = (text_of(host), port);
        if eq < end {
            let ghost value = trimmed(line.subrange(eq - pos + 1, line.len() as int));
            let raw = segment(&chars, eq + 1, end);
            assert(raw@ =~= line.subrange(eq - pos + 1, line.len() as int));
            let raw_text = string_from_chars(&raw);
            let t = trim_text(raw_text.as_str());
            assert(line.subrange(0, eq - pos) =~= chars@.subrange(pos as int, eq as int));
            if segment_equals(&chars, pos, eq, &host_word) {
                host = Some(String::from_str(t));
            } else if segment_equals(&chars, pos, eq, &port_word) {
                match parse_u16(t) {
                    Ok(n) => {
                        port = Some(n);
                    },
                    Err(e) => {
                        return Err(ParseConfigError::BadInt { field: "port", source: e });
                    },
                }
            }
            assert(line_update(line, before.0, before.1) == (false, text_of(host), port));
        }
        assert(line_update(line, before.0, before.1) == (false, text_of(host), port));
        if end >= len {
            break;
        }
        pos = end + 1;
    }
    match host {
        None => Err(ParseConfigError::MissingField("host")),
        Some(h) => match port {
            None => Err(ParseConfigError::MissingField("port")),
            Some(p) => Ok((h, p)),
        },
    }
}

} // verus!
