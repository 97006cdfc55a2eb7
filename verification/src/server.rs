//! The visualizer server's own rules: its command line, the HTTP requests it
//! answers, the routes it serves, the events it publishes and the engine runs
//! it asks for.
use vstd::prelude::*;

use crate::output::{int_decimal, nat_decimal, push_char, push_decimal, push_i64};
use crate::visualizer::{
    all_digit_chars, begins_with, begins_with_at, char_digits_value, chars_of, is_ws, is_ws_char,
    bool_text, lemma_char_digits_grow, lossy_utf8, match_result_json, match_result_text,
    percent_bytes, percent_decode, push_bool, push_quoted, push_text, quoted, reason_phrase,
    reason_spec, safe_name, safe_name_spec, same_text, skip_ws_chars, trim_chars, trim_text,
    side_for_game, side_in_game, MatchResult, StartRequest,
};

verus! {

/// The visualizer's settings, as read from its command line.
pub struct Config {
    pub addr: String,
    pub engine_dir: Option<String>,
    pub image: String,
    pub no_open: bool,
}

/// What reading the command line comes to: settings to run with, or a request
/// for the usage text.
pub enum ArgsOutcome {
    Run(Config),
    Help,
}

/// Why the command line was refused: a flag without its value, or an
/// argument that is no flag.
pub enum ArgsError {
    MissingValue(String),
    Unknown(String),
}

impl ArgsError {
    /// The message that reports the error.
    pub fn message(&self) -> (m: String)
        ensures
            self matches ArgsError::MissingValue(f) ==> m@ == f@ + " requires a value"@,
            self matches ArgsError::Unknown(v) ==> m@ == "unknown argument: "@ + v@,
    {
        match self {
            ArgsError::MissingValue(flag) => {
                let mut m = flag.clone();
                crate::visualizer::push_text(&mut m, " requires a value");
                m
            },
            ArgsError::Unknown(value) => {
                let mut m = "unknown argument: ".to_owned();
                crate::visualizer::push_text(&mut m, value.as_str());
                m
            },
        }
    }
}

/// A flag that takes the next argument as its value.
pub open spec fn value_flag(a: Seq<char>) -> bool {
    a == "--addr"@ || a == "--engine-dir"@ || a == "--image"@
}

/// A flag that asks for the usage text.
pub open spec fn help_flag(a: Seq<char>) -> bool {
    a == "-h"@ || a == "--help"@
}

/// Where reading the arguments from `i` on stops: past the end, or at a help
/// flag, at an argument that is no flag, or at a flag whose value is missing.
pub open spec fn args_stop(args: Seq<String>, i: int) -> int
    decreases args.len() - i,
{
    if i >= args.len() {
        i
    } else if value_flag(args[i]@) {
        if i + 1 < args.len() {
            args_stop(args, i + 2)
        } else {
            i
        }
    } else if args[i]@ == "--no-open"@ {
        args_stop(args, i + 1)
    } else {
        i
    }
}

/// The value given last to `flag` in the arguments read from `i` on, or
/// `current` where none is.
pub open spec fn flag_value(
    args: Seq<String>,
    i: int,
    flag: Seq<char>,
    current: Option<Seq<char>>,
) -> Option<Seq<char>>
    decreases args.len() - i,
{
    if i >= args.len() {
        current
    } else if value_flag(args[i]@) {
        if i + 1 < args.len() {
            flag_value(
                args,
                i + 2,
                flag,
                if args[i]@ == flag {
                    Some(args[i + 1]@)
                } else {
                    current
                },
            )
        } else {
            current
        }
    } else if args[i]@ == "--no-open"@ {
        flag_value(args, i + 1, flag, current)
    } else {
        current
    }
}

/// `--no-open` is among the arguments read from `i` on.
pub open spec fn no_open_given(args: Seq<String>, i: int) -> bool
    decreases args.len() - i,
{
    if i >= args.len() {
        false
    } else if value_flag(args[i]@) {
        i + 1 < args.len() && no_open_given(args, i + 2)
    } else {
        args[i]@ == "--no-open"@
    }
}

/// `o`'s text, or `d` where it has none.
pub open spec fn or_text(o: Option<Seq<char>>, d: Seq<char>) -> Seq<char> {
    match o {
        Some(v) => v,
        None => d,
    }
}

/// The text of an optional string.
pub open spec fn opt_view(o: Option<String>) -> Option<Seq<char>> {
    match o {
        Some(s) => Some(s@),
        None => None,
    }
}

/// Reads the command line, `args[0]` being the program's name. Each of
/// `--addr`, `--engine-dir` and `--image` takes the next argument as its value,
/// the last one given winning; `--no-open` keeps the browser closed; `-h` and
/// `--help` ask for the usage text. Reading stops at the first help flag,
/// unknown argument or flag without a value.
pub fn parse_args(args: &Vec<String>) -> (r: Result<ArgsOutcome, ArgsError>)
    ensures
        args_stop(args@, 1) >= args@.len() ==> (r matches Ok(ArgsOutcome::Run(c)) && c.addr@
            == or_text(flag_value(args@, 1, "--addr"@, None), "127.0.0.1:8080"@) && opt_view(
            c.engine_dir,
        ) == flag_value(args@, 1, "--engine-dir"@, None) && c.image@ == or_text(
            flag_value(args@, 1, "--image"@, None),
            "filler"@,
        ) && c.no_open == no_open_given(args@, 1)),
        args_stop(args@, 1) < args@.len() && help_flag(args@[args_stop(args@, 1)]@) ==> r matches Ok(
            ArgsOutcome::Help,
        ),
        args_stop(args@, 1) < args@.len() && value_flag(args@[args_stop(args@, 1)]@) ==> (r matches Err(
            ArgsError::MissingValue(f),
        ) && f@ == args@[args_stop(args@, 1)]@),
        args_stop(args@, 1) < args@.len() && !help_flag(args@[args_stop(args@, 1)]@) && !value_flag(
            args@[args_stop(args@, 1)]@,
        ) ==> (r matches Err(ArgsError::Unknown(v)) && v@ == args@[args_stop(args@, 1)]@),
{
    let mut addr = "127.0.0.1:8080".to_owned();
    let mut engine_dir: Option<String> = None;
    let mut image = "filler".to_owned();
    let mut no_open = false;
    let ghost mut addr_set: Option<Seq<char>> = None;
    let ghost mut image_set: Option<Seq<char>> = None;
    let mut index: usize = 1;
    while index < args.len()
        invariant
            1 <= index,
            index < args@.len() || index <= 1 || index == args@.len(),
            args_stop(args@, index as int) == args_stop(args@, 1),
            addr@ == or_text(addr_set, "127.0.0.1:8080"@),
            image@ == or_text(image_set, "filler"@),
            flag_value(args@, index as int, "--addr"@, addr_set) == flag_value(
                args@,
                1,
                "--addr"@,
                None,
            ),
            flag_value(args@, index as int, "--engine-dir"@, opt_view(engine_dir)) == flag_value(
                args@,
                1,
                "--engine-dir"@,
                None,
            ),
            flag_value(args@, index as int, "--image"@, image_set) == flag_value(
                args@,
                1,
                "--image"@,
                None,
            ),
            (no_open || no_open_given(args@, index as int)) == no_open_given(args@, 1),
        decreases args@.len() - index,
    {
        let a = args[index].as_str();
        let is_addr = same_text(a, "--addr");
        let is_engine = same_text(a, "--engine-dir");
        let is_image = same_text(a, "--image");
        proof {
            reveal_strlit("--addr");
            reveal_strlit("--engine-dir");
            reveal_strlit("--image");
            reveal_strlit("--no-open");
            reveal_strlit("-h");
            reveal_strlit("--help");
            assert("--addr"@.len() != "--engine-dir"@.len());
            assert("--addr"@.len() != "--image"@.len());
            assert("--engine-dir"@.len() != "--image"@.len());
            assert("--help"@[2] != "--addr"@[2]);
        }
        if is_addr || is_engine || is_image {
            if index + 1 >= args.len() {
                return Err(ArgsError::MissingValue(args[index].clone()));
            }
            let value = args[index + 1].clone();
            if is_addr {
                addr = value;
                proof {
                    addr_set = Some(addr@);
                }
            } else if is_engine {
                engine_dir = Some(value);
            } else {
                image = value;
                proof {
                    image_set = Some(image@);
                }
            }
            index = index + 2;
        } else if same_text(a, "--no-open") {
            no_open = true;
            index = index + 1;
        } else if same_text(a, "-h") || same_text(a, "--help") {
            return Ok(ArgsOutcome::Help);
        } else {
            return Err(ArgsError::Unknown(args[index].clone()));
        }
    }
    Ok(ArgsOutcome::Run(Config { addr, engine_dir, image, no_open }))
}

/// The engine directory to use: the one named on the command line, else the
/// value of `FILLER_ENGINE_DIR` where it holds more than whitespace, else
/// none, which stands for the `filler-engine` directory beside the project.
pub open spec fn engine_dir_spec(explicit: Option<String>, env_value: Option<String>) -> Option<
    String,
> {
    match explicit {
        Some(_) => explicit,
        None => match env_value {
            Some(v) => if trim_text(v@).len() > 0 {
                env_value
            } else {
                None
            },
            None => None,
        },
    }
}

/// Whether `s` holds anything but whitespace.
fn has_content(s: &str) -> (b: bool)
    ensures
        b == (trim_text(s@).len() > 0),
{
    let chars = chars_of(s);
    let (a, b) = trim_chars(&chars, 0, chars.len());
    proof {
        assert(chars@.subrange(0, chars@.len() as int) =~= chars@);
    }
    a < b
}

/// Chooses the engine directory (see `engine_dir_spec`).
pub fn chosen_engine_dir(explicit: Option<String>, env_value: Option<String>) -> (dir: Option<
    String,
>)
    ensures
        dir == engine_dir_spec(explicit, env_value),
{
    match explicit {
        Some(path) => Some(path),
        None => match env_value {
            Some(value) => if has_content(value.as_str()) {
                Some(value)
            } else {
                None
            },
            None => None,
        },
    }
}

/// The end of the word that starts at `i`: the first whitespace at or after
/// `i`, or the end.
pub open spec fn word_end_chars(s: Seq<char>, i: int) -> int
    decreases s.len() - i,
{
    if 0 <= i < s.len() && !is_ws_char(s[i]) {
        word_end_chars(s, i + 1)
    } else {
        i
    }
}

/// The first whitespace-separated word of an HTTP request line, or nothing.
pub open spec fn request_method(line: Seq<char>) -> Seq<char> {
    let a = skip_ws_chars(line, 0);
    line.subrange(a, word_end_chars(line, a))
}

/// The second whitespace-separated word of an HTTP request line, or `/`.
pub open spec fn request_target(line: Seq<char>) -> Seq<char> {
    let a = skip_ws_chars(line, 0);
    let c = skip_ws_chars(line, word_end_chars(line, a));
    if c < line.len() {
        line.subrange(c, word_end_chars(line, c))
    } else {
        "/"@
    }
}

fn skip_ws_from(s: &Vec<char>, i: usize) -> (r: usize)
    requires
        i <= s@.len(),
    ensures
        i <= r <= s@.len(),
        r == skip_ws_chars(s@, i as int),
{
    let mut k = i;
    while k < s.len() && is_ws(s[k])
        invariant
            i <= k <= s@.len(),
            skip_ws_chars(s@, k as int) == skip_ws_chars(s@, i as int),
        decreases s@.len() - k,
    {
        k = k + 1;
    }
    k
}

fn word_end_from(s: &Vec<char>, i: usize) -> (r: usize)
    requires
        i <= s@.len(),
    ensures
        i <= r <= s@.len(),
        r == word_end_chars(s@, i as int),
{
    let mut k = i;
    while k < s.len() && !is_ws(s[k])
        invariant
            i <= k <= s@.len(),
            word_end_chars(s@, k as int) == word_end_chars(s@, i as int),
        decreases s@.len() - k,
    {
        k = k + 1;
    }
    k
}

/// The characters `s[lo..hi]` as a string.
fn string_from(s: &Vec<char>, lo: usize, hi: usize) -> (t: String)
    requires
        lo <= hi <= s@.len(),
    ensures
        t@ == s@.subrange(lo as int, hi as int),
{
    let mut t = String::new();
    let mut k = lo;
    while k < hi
        invariant
            lo <= k <= hi <= s@.len(),
            t@ == s@.subrange(lo as int, k as int),
        decreases hi - k,
    {
        push_char(&mut t, s[k]);
        proof {
            assert(s@.subrange(lo as int, k + 1) =~= s@.subrange(lo as int, k as int).push(
                s@[k as int],
            ));
        }
        k = k + 1;
    }
    t
}

/// The method and the target of an HTTP request line.
pub fn request_line_parts(line: &str) -> (parts: (String, String))
    ensures
        parts.0@ == request_method(line@),
        parts.1@ == request_target(line@),
{
    let s = chars_of(line);
    let a = skip_ws_from(&s, 0);
    let b = word_end_from(&s, a);
    let c = skip_ws_from(&s, b);
    let method = string_from(&s, a, b);
    let target = if c < s.len() {
        let d = word_end_from(&s, c);
        string_from(&s, c, d)
    } else {
        "/".to_owned()
    };
    (method, target)
}

/// What a header line of a request tells the server.
pub enum HeaderLine {
    /// The empty line that ends the headers.
    End,
    /// A `Content-Length` header, with the length it gives (0 where it gives
    /// no number).
    ContentLength(usize),
    /// Any other header.
    Other,
}

/// `c` lowercased in ASCII is `p`, for a `p` that is no capital letter.
pub open spec fn lower_matches(c: char, p: char) -> bool {
    c == p || ('A' <= c && c <= 'Z' && (c as u32) + 32 == (p as u32))
}

/// `line` begins with `content-length:` in any mix of cases.
pub open spec fn is_length_header(line: Seq<char>) -> bool {
    let name = "content-length:"@;
    line.len() >= name.len() && forall|k: int|
        0 <= k < name.len() ==> lower_matches(#[trigger] line[k], name[k])
}

/// What `str::parse::<usize>` gives: an optional `+`, then at least one digit,
/// with a value in range.
pub open spec fn parse_usize_spec(t: Seq<char>) -> Option<usize> {
    let d = if t.len() > 0 && t[0] == '+' {
        t.drop_first()
    } else {
        t
    };
    if d.len() > 0 && all_digit_chars(d) && char_digits_value(d) <= usize::MAX {
        Some(char_digits_value(d) as usize)
    } else {
        None
    }
}

/// What a header line tells the server: the end of the headers for an empty
/// line, the body's length for a `Content-Length` header (0 where its value is
/// no number), nothing for any other.
pub open spec fn header_line_spec(line: Seq<char>) -> HeaderLine {
    if line == "\r\n"@ || line == "\n"@ {
        HeaderLine::End
    } else if is_length_header(line) {
        HeaderLine::ContentLength(
            match parse_usize_spec(trim_text(line.subrange(15, line.len() as int))) {
                Some(n) => n,
                None => 0,
            },
        )
    } else {
        HeaderLine::Other
    }
}

/// `t` parsed as `str::parse::<usize>` would.
fn parse_usize(t: &Vec<char>) -> (r: Option<usize>)
    ensures
        r == parse_usize_spec(t@),
{
    let len = t.len();
    let start: usize = if len > 0 && t[0] == '+' {
        1
    } else {
        0
    };
    let ghost d = if t@.len() > 0 && t@[0] == '+' {
        t@.drop_first()
    } else {
        t@
    };
    assert(d =~= t@.subrange(start as int, len as int));
    if start >= len {
        return None;
    }
    let mut magnitude: usize = 0;
    let mut k = start;
    while k < len
        invariant
            start <= k <= len,
            len == t@.len(),
            start < len,
            d == t@.subrange(start as int, len as int),
            d == if t@.len() > 0 && t@[0] == '+' {
                t@.drop_first()
            } else {
                t@
            },
            all_digit_chars(t@.subrange(start as int, k as int)),
            magnitude == char_digits_value(t@.subrange(start as int, k as int)),
        decreases len - k,
    {
        let c = t[k];
        if !('0' <= c && c <= '9') {
            proof {
                assert(d[k - start] == c);
                assert(!all_digit_chars(d));
            }
            return None;
        }
        let digit = (c as u32 - 48) as usize;
        proof {
            let pre = t@.subrange(start as int, k as int);
            let nxt = t@.subrange(start as int, k + 1);
            assert(nxt.drop_last() =~= pre);
        }
        if magnitude > (usize::MAX - digit) / 10 {
            proof {
                assert(magnitude * 10 + digit > usize::MAX) by (nonlinear_arith)
                    requires
                        magnitude > (usize::MAX - digit) / 10,
                        0 <= digit <= 9,
                ;
                if all_digit_chars(d) {
                    lemma_char_digits_grow(d, k + 1 - start);
                    assert(d.subrange(0, k + 1 - start) =~= t@.subrange(start as int, k + 1));
                }
            }
            return None;
        }
        proof {
            assert(magnitude * 10 + digit <= usize::MAX) by (nonlinear_arith)
                requires
                    magnitude <= (usize::MAX - digit) / 10,
                    0 <= digit <= 9,
            ;
        }
        magnitude = magnitude * 10 + digit;
        k = k + 1;
    }
    Some(magnitude)
}

/// Reads one header line of a request (see `header_line_spec`).
pub fn read_header_line(line: &str) -> (h: HeaderLine)
    ensures
        h == header_line_spec(line@),
{
    if same_text(line, "\r\n") || same_text(line, "\n") {
        return HeaderLine::End;
    }
    let s = chars_of(line);
    let name = chars_of("content-length:");
    proof {
        reveal_strlit("content-length:");
    }
    if s.len() < name.len() {
        return HeaderLine::Other;
    }
    let mut k: usize = 0;
    while k < name.len()
        invariant
            s@ == line@,
            !(line@ == "\r\n"@ || line@ == "\n"@),
            name@ == "content-length:"@,
            name@.len() <= s@.len(),
            k <= name@.len(),
            forall|j: int| 0 <= j < k ==> lower_matches(#[trigger] s@[j], name@[j]),
        decreases name@.len() - k,
    {
        let c = s[k];
        let p = name[k];
        if !(c == p || ('A' <= c && c <= 'Z' && (c as u32) + 32 == (p as u32))) {
            proof {
                assert(!lower_matches(s@[k as int], name@[k as int]));
                if is_length_header(line@) {
                    assert(lower_matches(line@[k as int], "content-length:"@[k as int]));
                }
            }
            return HeaderLine::Other;
        }
        k = k + 1;
    }
    let (a, b) = trim_chars(&s, 15, s.len());
    let digits = crate::visualizer::copy_chars(&s, a, b);
    match parse_usize(&digits) {
        Some(n) => HeaderLine::ContentLength(n),
        None => HeaderLine::ContentLength(0),
    }
}

/// Where a request goes.
#[derive(Clone, Copy, Debug, PartialEq, Eq, Structural)]
pub enum Route {
    Events,
    Status,
    Options,
    Start,
    Stop,
    RawReplay,
    Static { head: bool },
    NotAllowed,
}

/// The route of a request with `method` and `target`.
pub open spec fn route_spec(method: Seq<char>, target: Seq<char>) -> Route {
    if method == "GET"@ && target == "/api/events"@ {
        Route::Events
    } else if method == "GET"@ && target == "/api/status"@ {
        Route::Status
    } else if method == "GET"@ && target == "/api/options"@ {
        Route::Options
    } else if method == "POST"@ && target == "/api/matches/start"@ {
        Route::Start
    } else if method == "POST"@ && target == "/api/matches/stop"@ {
        Route::Stop
    } else if method == "GET"@ && begins_with(target, "/api/replays/raw?"@) {
        Route::RawReplay
    } else if method == "GET"@ || method == "HEAD"@ {
        Route::Static { head: method == "HEAD"@ }
    } else {
        Route::NotAllowed
    }
}

/// Whether `s` begins with `prefix`.
fn starts_with_text(s: &str, prefix: &str) -> (b: bool)
    ensures
        b == begins_with(s@, prefix@),
{
    let chars = chars_of(s);
    let p = chars_of(prefix);
    proof {
        assert(chars@.subrange(0, chars@.len() as int) =~= chars@);
    }
    begins_with_at(&chars, 0, &p)
}

/// Routes a request.
pub fn route(method: &str, target: &str) -> (r: Route)
    ensures
        r == route_spec(method@, target@),
{
    let get = same_text(method, "GET");
    let post = same_text(method, "POST");
    if get && same_text(target, "/api/events") {
        Route::Events
    } else if get && same_text(target, "/api/status") {
        Route::Status
    } else if get && same_text(target, "/api/options") {
        Route::Options
    } else if post && same_text(target, "/api/matches/start") {
        Route::Start
    } else if post && same_text(target, "/api/matches/stop") {
        Route::Stop
    } else if get && starts_with_text(target, "/api/replays/raw?") {
        Route::RawReplay
    } else {
        let head = same_text(method, "HEAD");
        if get || head {
            Route::Static { head }
        } else {
            Route::NotAllowed
        }
    }
}

/// The first index at or after `i` that holds `c`, or the end.
pub open spec fn next_char_at(s: Seq<char>, c: char, i: int) -> int
    decreases s.len() - i,
{
    if 0 <= i < s.len() && s[i] != c {
        next_char_at(s, c, i + 1)
    } else {
        i
    }
}

fn next_char_from(s: &Vec<char>, c: char, i: usize) -> (r: usize)
    requires
        i <= s@.len(),
    ensures
        i <= r <= s@.len(),
        r == next_char_at(s@, c, i as int),
{
    let mut k = i;
    while k < s.len() && s[k] != c
        invariant
            i <= k <= s@.len(),
            next_char_at(s@, c, k as int) == next_char_at(s@, c, i as int),
        decreases s@.len() - k,
    {
        k = k + 1;
    }
    k
}

/// The part of a request target after its first `?`, or nothing.
pub open spec fn query_part(target: Seq<char>) -> Seq<char> {
    let q = next_char_at(target, '?', 0);
    if q < target.len() {
        target.subrange(q + 1, target.len() as int)
    } else {
        Seq::empty()
    }
}

/// The raw value of the first `name=` pair of the `&`-separated pairs of `q`,
/// reading on at `i` with the current pair begun at `start`.
pub open spec fn name_param_from(q: Seq<char>, i: int, start: int) -> Option<Seq<char>>
    decreases q.len() - i,
{
    if i >= q.len() || q[i] == '&' {
        if begins_with(q.subrange(start, i), "name="@) {
            Some(q.subrange(start + 5, i))
        } else if i >= q.len() {
            None
        } else {
            name_param_from(q, i + 1, i + 1)
        }
    } else {
        name_param_from(q, i + 1, start)
    }
}

/// The replay file a raw-replay request asks for: the percent-decoded value
/// of its first `name` parameter, or nothing.
pub open spec fn replay_name_spec(target: Seq<char>) -> Seq<char> {
    match name_param_from(query_part(target), 0, 0) {
        Some(v) => lossy_utf8(percent_bytes(vstd::utf8::encode_utf8(v), 0)),
        None => Seq::empty(),
    }
}

/// Whether the pair `q[start..end]` begins with `name=`.
fn is_name_pair(q: &Vec<char>, start: usize, end: usize) -> (b: bool)
    requires
        start <= end <= q@.len(),
    ensures
        b == begins_with(q@.subrange(start as int, end as int), "name="@),
{
    let marker = chars_of("name=");
    proof {
        reveal_strlit("name=");
    }
    if end - start < 5 {
        return false;
    }
    let b = begins_with_at(q, start, &marker);
    proof {
        assert(q@.subrange(start as int, end as int).subrange(0, 5) =~= q@.subrange(
            start as int,
            q@.len() as int,
        ).subrange(0, 5));
    }
    b
}

/// The replay file a raw-replay request asks for (see `replay_name_spec`).
pub fn replay_name(target: &str) -> (name: String)
    ensures
        name@ == replay_name_spec(target@),
{
    let t = chars_of(target);
    let qmark = next_char_from(&t, '?', 0);
    let q = if qmark < t.len() {
        crate::visualizer::copy_chars(&t, qmark + 1, t.len())
    } else {
        Vec::new()
    };
    proof {
        assert(q@ =~= query_part(target@));
    }
    let mut i: usize = 0;
    let mut start: usize = 0;
    loop
        invariant
            q@ == query_part(target@),
            start <= i <= q@.len(),
            name_param_from(q@, i as int, start as int) == name_param_from(q@, 0, 0),
        decreases q@.len() - i,
    {
        if i >= q.len() || q[i] == '&' {
            if is_name_pair(&q, start, i) {
                proof {
                    reveal_strlit("name=");
                }
                let raw = string_from(&q, start + 5, i);
                return percent_decode(raw.as_str());
            }
            if i >= q.len() {
                return String::new();
            }
            start = i + 1;
        }
        i = i + 1;
    }
}

/// The end of the run of `/` that starts at `i`.
pub open spec fn slashes_end(s: Seq<char>, i: int) -> int
    decreases s.len() - i,
{
    if 0 <= i < s.len() && s[i] == '/' {
        slashes_end(s, i + 1)
    } else {
        i
    }
}

/// `s` holds two dots in a row.
pub open spec fn has_double_dot(s: Seq<char>) -> bool {
    exists|i: int| 0 <= i && i + 1 < s.len() && #[trigger] s[i] == '.' && s[i + 1] == '.'
}

/// The file a static request asks for: the target's path (the part before
/// any `?`) without its leading `/`s, `index.html` for the bare `/`; none
/// where that name holds `..` or is no safe name (which rules out `/` and `\`
/// as well).
pub open spec fn static_name_spec(target: Seq<char>) -> Option<Seq<char>> {
    let raw = target.subrange(0, next_char_at(target, '?', 0));
    let name = if raw == "/"@ {
        "index.html"@
    } else {
        raw.subrange(slashes_end(raw, 0), raw.len() as int)
    };
    if has_double_dot(name) || !safe_name_spec(name) {
        None
    } else {
        Some(name)
    }
}

/// Whether `s` holds two dots in a row.
fn double_dot_in(s: &Vec<char>) -> (b: bool)
    ensures
        b == has_double_dot(s@),
{
    let mut i: usize = 0;
    while s.len() > 0 && i < s.len() - 1
        invariant
            i <= s@.len(),
            forall|j: int| 0 <= j < i && j + 1 < s@.len() ==> !(#[trigger] s@[j] == '.' && s@[j + 1]
                == '.'),
        decreases s@.len() - i,
    {
        if s[i] == '.' && s[i + 1] == '.' {
            return true;
        }
        i = i + 1;
    }
    false
}

/// The file a static request asks for (see `static_name_spec`).
pub fn static_file_name(target: &str) -> (name: Option<String>)
    ensures
        name matches Some(n) ==> static_name_spec(target@) == Some(n@),
        name is None ==> static_name_spec(target@) is None,
{
    let t = chars_of(target);
    let qmark = next_char_from(&t, '?', 0);
    let raw = crate::visualizer::copy_chars(&t, 0, qmark);
    let root = same_text(string_from(&raw, 0, raw.len()).as_str(), "/");
    proof {
        assert(raw@.subrange(0, raw@.len() as int) =~= raw@);
    }
    let name = if root {
        chars_of("index.html")
    } else {
        let mut k: usize = 0;
        while k < raw.len() && raw[k] == '/'
            invariant
                k <= raw@.len(),
                slashes_end(raw@, k as int) == slashes_end(raw@, 0),
            decreases raw@.len() - k,
        {
            k = k + 1;
        }
        crate::visualizer::copy_chars(&raw, k, raw.len())
    };
    let text = string_from(&name, 0, name.len());
    proof {
        assert(name@.subrange(0, name@.len() as int) =~= name@);
    }
    if double_dot_in(&name) || !safe_name(text.as_str()) {
        None
    } else {
        Some(text)
    }
}

/// The head of an HTTP response.
pub open spec fn response_head_text(status: u16, content_type: Seq<char>, length: nat) -> Seq<
    char,
> {
    "HTTP/1.1 "@ + nat_decimal(status as nat) + seq![' '] + reason_spec(status)
        + "\r\nContent-Type: "@ + content_type + "\r\nContent-Length: "@ + nat_decimal(length)
        + "\r\nCache-Control: no-cache\r\nConnection: close\r\n\r\n"@
}

/// The head of an HTTP response with `status`, `content_type` and a body of
/// `length` bytes.
pub fn response_head(status: u16, content_type: &str, length: usize) -> (head: String)
    ensures
        head@ == response_head_text(status, content_type@, length as nat),
{
    let mut out = "HTTP/1.1 ".to_owned();
    push_decimal(&mut out, status as u128);
    push_char(&mut out, ' ');
    push_text(&mut out, reason_phrase(status));
    push_text(&mut out, "\r\nContent-Type: ");
    push_text(&mut out, content_type);
    push_text(&mut out, "\r\nContent-Length: ");
    push_decimal(&mut out, length as u128);
    push_text(&mut out, "\r\nCache-Control: no-cache\r\nConnection: close\r\n\r\n");
    proof {
        assert(out@ =~= response_head_text(status, content_type@, length as nat));
    }
    out
}

/// The event that reports a step of the setup.
pub open spec fn setup_event_text(message: Seq<char>) -> Seq<char> {
    "{\"type\":\"setup\",\"message\":"@ + quoted(message) + "}"@
}

/// The event that reports a step of the setup.
pub fn setup_event(message: &str) -> (event: String)
    ensures
        event@ == setup_event_text(message@),
{
    let mut out = "{\"type\":\"setup\",\"message\":".to_owned();
    push_quoted(&mut out, message);
    push_text(&mut out, "}");
    proof {
        assert(out@ =~= setup_event_text(message@));
    }
    out
}

/// The event that reports a failed setup.
pub open spec fn error_event_text(message: Seq<char>) -> Seq<char> {
    "{\"type\":\"error\",\"message\":"@ + quoted(message) + "}"@
}

/// The event that reports a failed setup.
pub fn error_event(message: &str) -> (event: String)
    ensures
        event@ == error_event_text(message@),
{
    let mut out = "{\"type\":\"error\",\"message\":".to_owned();
    push_quoted(&mut out, message);
    push_text(&mut out, "}");
    proof {
        assert(out@ =~= error_event_text(message@));
    }
    out
}

/// The event that opens a series.
pub open spec fn series_start_text(r: StartRequest) -> Seq<char> {
    "{\"type\":\"series_start\",\"map\":"@ + quoted(r.map@) + ",\"opponent\":"@ + quoted(
        r.opponent@,
    ) + ",\"games\":"@ + nat_decimal(r.games as nat) + ",\"side\":"@ + quoted(r.side@)
        + ",\"live\":"@ + bool_text(r.live) + "}"@
}

/// The event that opens a series.
pub fn series_start_event(request: &StartRequest) -> (event: String)
    ensures
        event@ == series_start_text(*request),
{
    let mut out = "{\"type\":\"series_start\",\"map\":".to_owned();
    push_quoted(&mut out, request.map.as_str());
    push_text(&mut out, ",\"opponent\":");
    push_quoted(&mut out, request.opponent.as_str());
    push_text(&mut out, ",\"games\":");
    push_decimal(&mut out, request.games as u128);
    push_text(&mut out, ",\"side\":");
    push_quoted(&mut out, request.side.as_str());
    push_text(&mut out, ",\"live\":");
    push_bool(&mut out, request.live);
    push_text(&mut out, "}");
    proof {
        assert(out@ =~= series_start_text(*request));
    }
    out
}

/// The event that opens the match with `index`, played on `side`.
pub open spec fn match_start_text(index: usize, r: StartRequest, side: Seq<char>) -> Seq<char> {
    "{\"type\":\"match_start\",\"index\":"@ + nat_decimal(index as nat) + ",\"games\":"@
        + nat_decimal(r.games as nat) + ",\"map\":"@ + quoted(r.map@) + ",\"opponent\":"@ + quoted(
        r.opponent@,
    ) + ",\"side\":"@ + quoted(side) + ",\"live\":"@ + bool_text(r.live) + "}"@
}

/// The event that opens the match with `index`, played on `side`.
pub fn match_start_event(index: usize, request: &StartRequest, side: &str) -> (event: String)
    ensures
        event@ == match_start_text(index, *request, side@),
{
    let mut out = "{\"type\":\"match_start\",\"index\":".to_owned();
    push_decimal(&mut out, index as u128);
    push_text(&mut out, ",\"games\":");
    push_decimal(&mut out, request.games as u128);
    push_text(&mut out, ",\"map\":");
    push_quoted(&mut out, request.map.as_str());
    push_text(&mut out, ",\"opponent\":");
    push_quoted(&mut out, request.opponent.as_str());
    push_text(&mut out, ",\"side\":");
    push_quoted(&mut out, side);
    push_text(&mut out, ",\"live\":");
    push_bool(&mut out, request.live);
    push_text(&mut out, "}");
    proof {
        assert(out@ =~= match_start_text(index, *request, side@));
    }
    out
}

/// The event that passes on a line of the engine's output.
pub open spec fn log_event_text(index: usize, line: Seq<char>) -> Seq<char> {
    "{\"type\":\"log\",\"index\":"@ + nat_decimal(index as nat) + ",\"line\":"@ + quoted(line)
        + "}"@
}

/// The event that passes on a line of the engine's output.
pub fn log_event(index: usize, line: &str) -> (event: String)
    ensures
        event@ == log_event_text(index, line@),
{
    let mut out = "{\"type\":\"log\",\"index\":".to_owned();
    push_decimal(&mut out, index as u128);
    push_text(&mut out, ",\"line\":");
    push_quoted(&mut out, line);
    push_text(&mut out, "}");
    proof {
        assert(out@ =~= log_event_text(index, line@));
    }
    out
}

/// The event that reports a finished match.
pub fn match_end_event(result: &MatchResult) -> (event: String)
    ensures
        event@ == "{\"type\":\"match_end\",\"result\":"@ + match_result_text(*result) + "}"@,
{
    let mut out = "{\"type\":\"match_end\",\"result\":".to_owned();
    let json = match_result_json(result);
    push_text(&mut out, json.as_str());
    push_text(&mut out, "}");
    out
}

/// The event that closes a series.
pub open spec fn series_end_text(wins: usize, completed: usize, requested: usize, stopped: bool) -> Seq<
    char,
> {
    "{\"type\":\"series_end\",\"wins\":"@ + nat_decimal(wins as nat) + ",\"completed\":"@
        + nat_decimal(completed as nat) + ",\"requested\":"@ + nat_decimal(requested as nat)
        + ",\"stopped\":"@ + bool_text(stopped) + "}"@
}

/// The event that closes a series.
pub fn series_end_event(wins: usize, completed: usize, requested: usize, stopped: bool) -> (event:
    String)
    ensures
        event@ == series_end_text(wins, completed, requested, stopped),
{
    let mut out = "{\"type\":\"series_end\",\"wins\":".to_owned();
    push_decimal(&mut out, wins as u128);
    push_text(&mut out, ",\"completed\":");
    push_decimal(&mut out, completed as u128);
    push_text(&mut out, ",\"requested\":");
    push_decimal(&mut out, requested as u128);
    push_text(&mut out, ",\"stopped\":");
    push_bool(&mut out, stopped);
    push_text(&mut out, "}");
    proof {
        assert(out@ =~= series_end_text(wins, completed, requested, stopped));
    }
    out
}

/// The answer to a stop request.
pub fn stopping_json(was_running: bool) -> (json: String)
    ensures
        json@ == "{\"stopping\":"@ + bool_text(was_running) + "}"@,
{
    let mut out = "{\"stopping\":".to_owned();
    push_bool(&mut out, was_running);
    push_text(&mut out, "}");
    out
}

/// The seed of the game at `game` (counting from 0) of a series seeded with
/// `seed`: the series' seed plus the game's place.
pub fn game_seed(seed: Option<i64>, game: usize) -> (s: Option<i64>)
    requires
        seed matches Some(base) ==> game <= i64::MAX && base + game <= i64::MAX,
    ensures
        seed is None ==> s is None,
        seed matches Some(base) ==> s == Some((base + game) as i64),
{
    match seed {
        Some(base) => Some(base + game as i64),
        None => None,
    }
}

/// The official engine and robots built for one machine architecture.
#[derive(Clone, Copy, Debug, PartialEq, Eq, Structural)]
pub enum EngineSet {
    /// `linux_game_engine` and `linux_robots/`, for `amd64` / `x86_64`.
    Linux,
    /// `m1_game_engine` and `m1_robots/`, for `arm64` / `aarch64`.
    M1,
}

/// The engine set for the Docker daemon's architecture `arch` (as the daemon
/// names it, surrounding whitespace aside): the `m1` set for `arm64` and
/// `aarch64`, the `linux` set otherwise.
pub open spec fn engine_set_spec(arch: Seq<char>) -> EngineSet {
    let a = trim_text(arch);
    if a == "arm64"@ || a == "aarch64"@ {
        EngineSet::M1
    } else {
        EngineSet::Linux
    }
}

/// Chooses the engine set for the Docker daemon's architecture.
pub fn engine_set_for(arch: &str) -> (set: EngineSet)
    ensures
        set == engine_set_spec(arch@),
{
    let chars = chars_of(arch);
    let (a, b) = trim_chars(&chars, 0, chars.len());
    proof {
        assert(chars@.subrange(0, chars@.len() as int) =~= chars@);
    }
    let name = string_from(&chars, a, b);
    if same_text(name.as_str(), "arm64") || same_text(name.as_str(), "aarch64") {
        EngineSet::M1
    } else {
        EngineSet::Linux
    }
}

/// The directory of the set's opponent robots.
pub open spec fn robots_dir_spec(set: EngineSet) -> Seq<char> {
    match set {
        EngineSet::Linux => "linux_robots"@,
        EngineSet::M1 => "m1_robots"@,
    }
}

/// The directory of the set's opponent robots.
pub fn robots_dir(set: EngineSet) -> (dir: &'static str)
    ensures
        dir@ == robots_dir_spec(set),
{
    match set {
        EngineSet::Linux => "linux_robots",
        EngineSet::M1 => "m1_robots",
    }
}

/// Where the set's game engine lies in the engine's container.
pub open spec fn engine_path_spec(set: EngineSet) -> Seq<char> {
    match set {
        EngineSet::Linux => "/filler/linux_game_engine"@,
        EngineSet::M1 => "/filler/m1_game_engine"@,
    }
}

/// Where the Filler player built in the engine's container lies.
pub open spec fn player_path() -> Seq<char> {
    "/filler/solution/target/docker-linux/release/filler"@
}

/// The players of a match, first and second: the Filler player on `side`
/// (first for `p1`, second otherwise), the opponent robot of the engine set
/// on the other.
pub fn match_players(set: EngineSet, side: &str, opponent: &str) -> (players: (String, String))
    ensures
        side@ == "p1"@ ==> players.0@ == player_path() && players.1@ == robots_dir_spec(set)
            + seq!['/'] + opponent@,
        side@ != "p1"@ ==> players.0@ == robots_dir_spec(set) + seq!['/'] + opponent@
            && players.1@ == player_path(),
{
    let mut robot = robots_dir(set).to_owned();
    push_char(&mut robot, '/');
    push_text(&mut robot, opponent);
    let player = "/filler/solution/target/docker-linux/release/filler".to_owned();
    if same_text(side, "p1") {
        (player, robot)
    } else {
        (robot, player)
    }
}

/// The texts of `v`.
pub open spec fn texts(v: Seq<String>) -> Seq<Seq<char>> {
    v.map_values(|a: String| a@)
}

/// The arguments of the container run that plays one match.
pub open spec fn engine_arguments_spec(
    set: EngineSet,
    project_dir: Seq<char>,
    image: Seq<char>,
    map: Seq<char>,
    p1: Seq<char>,
    p2: Seq<char>,
    seed: Option<i64>,
) -> Seq<Seq<char>> {
    seq![
        "run"@,
        "--rm"@,
        "-v"@,
        project_dir + ":/filler/solution"@,
        "--entrypoint"@,
        engine_path_spec(set),
        image,
        "-f"@,
        "maps/"@ + map,
        "-p1"@,
        p1,
        "-p2"@,
        p2,
    ] + match seed {
        Some(n) => seq!["-s"@, int_decimal(n as int)],
        None => Seq::empty(),
    }
}

/// The arguments of the container run that plays one match on `map` between
/// `p1` and `p2` with the set's engine, the project mounted from
/// `project_dir`.
pub fn engine_arguments(
    set: EngineSet,
    project_dir: &str,
    image: &str,
    map: &str,
    p1: &str,
    p2: &str,
    seed: Option<i64>,
) -> (args: Vec<String>)
    ensures
        texts(args@) == engine_arguments_spec(set, project_dir@, image@, map@, p1@, p2@, seed),
{
    let mut mount = project_dir.to_owned();
    push_text(&mut mount, ":/filler/solution");
    let mut map_path = "maps/".to_owned();
    push_text(&mut map_path, map);
    let mut args: Vec<String> = Vec::new();
    args.push("run".to_owned());
    args.push("--rm".to_owned());
    args.push("-v".to_owned());
    args.push(mount);
    args.push("--entrypoint".to_owned());
    let engine = match set {
        EngineSet::Linux => "/filler/linux_game_engine".to_owned(),
        EngineSet::M1 => "/filler/m1_game_engine".to_owned(),
    };
    args.push(engine);
    args.push(image.to_owned());
    args.push("-f".to_owned());
    args.push(map_path);
    args.push("-p1".to_owned());
    args.push(p1.to_owned());
    args.push("-p2".to_owned());
    args.push(p2.to_owned());
    match seed {
        Some(n) => {
            args.push("-s".to_owned());
            let mut text = String::new();
            push_i64(&mut text, n);
            args.push(text);
        },
        None => {},
    }
    proof {
        assert(texts(args@) =~= engine_arguments_spec(
            set,
            project_dir@,
            image@,
            map@,
            p1@,
            p2@,
            seed,
        ));
    }
    args
}

/// `n` written with at least two digits, a `0` before a single one.
pub open spec fn two_digits(n: nat) -> Seq<char> {
    if n < 10 {
        seq!['0'] + nat_decimal(n)
    } else {
        nat_decimal(n)
    }
}

/// The name of the file that keeps the log of a match.
pub open spec fn log_file_text(
    timestamp: u128,
    map: Seq<char>,
    opponent: Seq<char>,
    index: usize,
    side: Seq<char>,
) -> Seq<char> {
    nat_decimal(timestamp as nat) + seq!['-'] + map + seq!['-'] + opponent + seq!['-'] + two_digits(
        index as nat,
    ) + seq!['-'] + side + ".log"@
}

/// The name of the file that keeps the log of the match with `index`,
/// started at `timestamp` milliseconds.
pub fn log_file_name(timestamp: u128, map: &str, opponent: &str, index: usize, side: &str) -> (name:
    String)
    ensures
        name@ == log_file_text(timestamp, map@, opponent@, index, side@),
{
    let mut out = String::new();
    push_decimal(&mut out, timestamp);
    push_char(&mut out, '-');
    push_text(&mut out, map);
    push_char(&mut out, '-');
    push_text(&mut out, opponent);
    push_char(&mut out, '-');
    if index < 10 {
        push_char(&mut out, '0');
    }
    push_decimal(&mut out, index as u128);
    push_char(&mut out, '-');
    push_text(&mut out, side);
    push_text(&mut out, ".log");
    proof {
        assert(out@ =~= log_file_text(timestamp, map@, opponent@, index, side@));
    }
    out
}

/// How far a series of matches has come.
#[derive(Clone, Copy, Debug, PartialEq, Eq)]
pub struct SeriesProgress {
    /// The place (counting from 0) of the next game to play.
    pub next_game: usize,
    /// The games the student has won.
    pub wins: usize,
    /// The games played to their end.
    pub completed: usize,
}

/// What a series does next: play a match, or close with its counts.
pub enum SeriesStep {
    Play { index: usize, side: String, seed: Option<i64> },
    Finish { wins: usize, completed: usize, requested: usize, stopped: bool },
}

impl SeriesProgress {
    /// A series before its first game.
    pub fn start() -> (p: SeriesProgress)
        ensures
            p.next_game == 0 && p.wins == 0 && p.completed == 0,
    {
        SeriesProgress { next_game: 0, wins: 0, completed: 0 }
    }
}

/// The next step of the series that `request` asks for: it ends, with its
/// counts, once a stop was requested or every game was played; otherwise it
/// plays the next game, numbered from 1, on the side and with the seed that
/// the game's place gives.
pub fn series_step(request: &StartRequest, progress: SeriesProgress, stop_requested: bool) -> (step:
    SeriesStep)
    requires
        progress.next_game <= request.games,
        progress.next_game < request.games ==> (request.seed matches Some(base) ==> progress.next_game
            <= i64::MAX && base + progress.next_game <= i64::MAX),
    ensures
        stop_requested || progress.next_game == request.games ==> (step matches SeriesStep::Finish {
            wins,
            completed,
            requested,
            stopped,
        } && wins == progress.wins && completed == progress.completed && requested == request.games
            && stopped == stop_requested),
        !stop_requested && progress.next_game < request.games ==> (step matches SeriesStep::Play {
            index,
            side,
            seed,
        } && index == progress.next_game + 1 && side@ == side_in_game(
            request.side@,
            progress.next_game as int,
        ) && (request.seed is None ==> seed is None) && (request.seed matches Some(base) ==> seed
            == Some((base + progress.next_game) as i64))),
{
    if stop_requested || progress.next_game >= request.games {
        return SeriesStep::Finish {
            wins: progress.wins,
            completed: progress.completed,
            requested: request.games,
            stopped: stop_requested,
        };
    }
    let side = side_for_game(request.side.as_str(), progress.next_game).to_owned();
    let seed = game_seed(request.seed, progress.next_game);
    SeriesStep::Play { index: progress.next_game + 1, side, seed }
}

/// The progress after a match: one more game played and completed, and one
/// more win where the student won it.
pub fn record_match(p: SeriesProgress, student_won: bool) -> (n: SeriesProgress)
    requires
        p.wins <= p.completed,
        p.completed < usize::MAX,
        p.next_game < usize::MAX,
    ensures
        n.next_game == p.next_game + 1,
        n.completed == p.completed + 1,
        n.wins == p.wins + if student_won {
            1int
        } else {
            0int
        },
{
    SeriesProgress {
        next_game: p.next_game + 1,
        wins: if student_won {
            p.wins + 1
        } else {
            p.wins
        },
        completed: p.completed + 1,
    }
}

} // verus!
