//! The decisions of the developer task runner: which cargo arguments build a
//! demo, what a static file server answers, how the screenshot harness reads
//! its settings and the engine's checkpoint markers, and where a shot goes.
//!
//! Running processes, reading files and talking to sockets is the runner's
//! own business; these functions are what it decides with.
use vstd::prelude::*;
use crate::capture::{insert_sorted, strictly_increasing};
use crate::text::{
    after_last_char, chars_of, decimal, decimal_chars, fields, find_char, lemma_fields_first, lemma_fields_nonempty,
    lemma_fields_last, parse_u32, parse_u32_spec, parse_u64, parse_u64_spec, range_is, split_any,
    string_from_chars, trim_range, trim_spec, words, split_words, string_of_range, ranges_of,
    parse_i32, parse_i32_spec, is_sep,
};

verus! {

/// The text after the last `.` of `name`, or all of it if there is none.
pub open spec fn extension(name: Seq<char>) -> Seq<char> {
    fields(name, '.', '.').last()
}

/// A file's extension is what follows its last dot, whatever comes before.
pub proof fn lemma_extension_after_last_dot(stem: Seq<char>, ext: Seq<char>)
    requires
        !ext.contains('.'),
    ensures
        extension(stem + "."@ + ext) == ext,
{
    reveal_strlit(".");
    let s = stem + "."@ + ext;
    let k = stem.len() + 1;
    assert(s[k - 1] == '.');
    assert forall|j: int| k <= j < s.len() implies !is_sep(#[trigger] s[j], '.', '.') by {
        assert(s[j] == ext[j - k]);
    }
    lemma_fields_last(s, '.', '.', k as int);
    assert(s.subrange(k as int, s.len() as int) =~= ext);
}

/// Every file is served with the type of its extension, whatever its name
/// before the last dot: pages as HTML, scripts (`js`, `mjs`) as JavaScript,
/// the module as `application/wasm` (which browsers need to stream-compile
/// it), and so on.
pub proof fn lemma_types_follow_extensions(stem: Seq<char>)
    ensures
        content_type_for(extension(stem + "."@ + "html"@)) == "text/html; charset=utf-8"@,
        content_type_for(extension(stem + "."@ + "js"@)) == "text/javascript; charset=utf-8"@,
        content_type_for(extension(stem + "."@ + "mjs"@)) == "text/javascript; charset=utf-8"@,
        content_type_for(extension(stem + "."@ + "wasm"@)) == "application/wasm"@,
        content_type_for(extension(stem + "."@ + "css"@)) == "text/css; charset=utf-8"@,
        content_type_for(extension(stem + "."@ + "json"@)) == "application/json; charset=utf-8"@,
        content_type_for(extension(stem + "."@ + "ts"@)) == "text/plain; charset=utf-8"@,
        content_type_for(extension(stem + "."@ + "png"@)) == "image/png"@,
        content_type_for(extension(stem + "."@ + "svg"@)) == "image/svg+xml"@,
{
    reveal_strlit("html");
    reveal_strlit("js");
    reveal_strlit("mjs");
    reveal_strlit("wasm");
    reveal_strlit("css");
    reveal_strlit("json");
    reveal_strlit("ts");
    reveal_strlit("png");
    reveal_strlit("svg");
    assert("js"@.len() != "html"@.len());
    assert("mjs"@.len() != "html"@.len());
    assert("mjs"@.len() != "js"@.len());
    assert("wasm"@[0] != "html"@[0]);
    assert("wasm"@.len() != "js"@.len());
    assert("wasm"@.len() != "mjs"@.len());
    assert("css"@.len() != "html"@.len());
    assert("css"@.len() != "js"@.len());
    assert("css"@[0] != "mjs"@[0]);
    assert("css"@.len() != "wasm"@.len());
    assert("json"@[0] != "html"@[0]);
    assert("json"@.len() != "js"@.len());
    assert("json"@.len() != "mjs"@.len());
    assert("json"@[0] != "wasm"@[0]);
    assert("json"@.len() != "css"@.len());
    assert("ts"@.len() != "html"@.len());
    assert("ts"@[0] != "js"@[0]);
    assert("ts"@.len() != "mjs"@.len());
    assert("ts"@.len() != "wasm"@.len());
    assert("ts"@.len() != "css"@.len());
    assert("ts"@.len() != "json"@.len());
    assert("png"@.len() != "html"@.len());
    assert("png"@.len() != "js"@.len());
    assert("png"@[0] != "mjs"@[0]);
    assert("png"@.len() != "wasm"@.len());
    assert("png"@[0] != "css"@[0]);
    assert("png"@.len() != "json"@.len());
    assert("png"@.len() != "ts"@.len());
    assert("svg"@.len() != "html"@.len());
    assert("svg"@.len() != "js"@.len());
    assert("svg"@[0] != "mjs"@[0]);
    assert("svg"@.len() != "wasm"@.len());
    assert("svg"@[0] != "css"@[0]);
    assert("svg"@.len() != "json"@.len());
    assert("svg"@.len() != "ts"@.len());
    assert("svg"@[0] != "png"@[0]);
    lemma_extension_after_last_dot(stem, "html"@);
    lemma_extension_after_last_dot(stem, "js"@);
    lemma_extension_after_last_dot(stem, "mjs"@);
    lemma_extension_after_last_dot(stem, "wasm"@);
    lemma_extension_after_last_dot(stem, "css"@);
    lemma_extension_after_last_dot(stem, "json"@);
    lemma_extension_after_last_dot(stem, "ts"@);
    lemma_extension_after_last_dot(stem, "png"@);
    lemma_extension_after_last_dot(stem, "svg"@);
}

/// The Content-Type a static server sends for a file with extension `ext`.
pub open spec fn content_type_for(ext: Seq<char>) -> Seq<char> {
    if ext == "html"@ {
        "text/html; charset=utf-8"@
    } else if ext == "js"@ || ext == "mjs"@ {
        "text/javascript; charset=utf-8"@
    } else if ext == "wasm"@ {
        "application/wasm"@
    } else if ext == "css"@ {
        "text/css; charset=utf-8"@
    } else if ext == "json"@ {
        "application/json; charset=utf-8"@
    } else if ext == "ts"@ {
        "text/plain; charset=utf-8"@
    } else if ext == "png"@ {
        "image/png"@
    } else if ext == "svg"@ {
        "image/svg+xml"@
    } else {
        "application/octet-stream"@
    }
}

/// Map a file name to a Content-Type. `application/wasm` matters: browsers
/// need it to stream-compile the module.
pub fn content_type(name: &str) -> (t: &'static str)
    ensures
        t@ == content_type_for(extension(name@)),
{
    let chars = chars_of(name);
    let n = chars.len();
    let s = chars.as_slice();
    let k = after_last_char(s, 0, n, '.');
    proof {
        assert(s@.subrange(0, n as int) =~= name@);
        lemma_fields_last(name@, '.', '.', k as int);
    }
    if range_is(s, k, n, "html") {
        "text/html; charset=utf-8"
    } else if range_is(s, k, n, "js") || range_is(s, k, n, "mjs") {
        "text/javascript; charset=utf-8"
    } else if range_is(s, k, n, "wasm") {
        "application/wasm"
    } else if range_is(s, k, n, "css") {
        "text/css; charset=utf-8"
    } else if range_is(s, k, n, "json") {
        "application/json; charset=utf-8"
    } else if range_is(s, k, n, "ts") {
        "text/plain; charset=utf-8"
    } else if range_is(s, k, n, "png") {
        "image/png"
    } else if range_is(s, k, n, "svg") {
        "image/svg+xml"
    } else {
        "application/octet-stream"
    }
}

/// The arguments of `cargo build` for an engine example, native or wasm.
pub open spec fn build_args_spec(example: Seq<char>, release: bool, wasm: bool) -> Seq<Seq<char>> {
    seq!["build"@, "--package"@, "slmsttaa"@, "--example"@, example] + (if wasm {
        seq!["--target"@, "wasm32-unknown-unknown"@]
    } else {
        Seq::empty()
    }) + (if release {
        seq!["--release"@]
    } else {
        Seq::empty()
    })
}

/// `cargo build` arguments for the engine example, native or wasm.
pub fn build_args(example: &str, release: bool, wasm: bool) -> (args: Vec<String>)
    ensures
        args@.map_values(|a: String| a@) == build_args_spec(example@, release, wasm),
{
    let mut v: Vec<String> = Vec::new();
    v.push(String::from_str("build"));
    v.push(String::from_str("--package"));
    v.push(String::from_str("slmsttaa"));
    v.push(String::from_str("--example"));
    v.push(String::from_str(example));
    if wasm {
        v.push(String::from_str("--target"));
        v.push(String::from_str("wasm32-unknown-unknown"));
    }
    if release {
        v.push(String::from_str("--release"));
    }
    assert(v@.map_values(|a: String| a@) =~= build_args_spec(example@, release, wasm));
    v
}

/// What `WxH` (or `WXH`) names: two positive `u32`s and nothing more.
pub open spec fn size_spec(raw: Seq<char>) -> Option<(u32, u32)> {
    let f = fields(raw, 'x', 'X');
    if f.len() == 2 {
        match (parse_u32_spec(f[0]), parse_u32_spec(f[1])) {
            (Some(w), Some(h)) => if w > 0 && h > 0 {
                Some((w, h))
            } else {
                None
            },
            _ => None,
        }
    } else {
        None
    }
}

/// `WxH` into a pair, e.g. `1280x800`; `None` unless both are positive
/// numbers and there is nothing else.
pub fn parse_size(raw: &str) -> (size: Option<(u32, u32)>)
    ensures
        size == size_spec(raw@),
{
    let chars = chars_of(raw);
    let s = chars.as_slice();
    let ranges = split_any(s, 0, chars.len(), 'x', 'X');
    proof {
        assert(s@.subrange(0, chars.len() as int) =~= raw@);
    }
    if ranges.len() != 2 {
        return None;
    }
    let (a0, b0) = ranges[0];
    let (a1, b1) = ranges[1];
    let w = parse_u32(s, a0, b0);
    let h = parse_u32(s, a1, b1);
    match (w, h) {
        (Some(w), Some(h)) => if w > 0 && h > 0 {
            Some((w, h))
        } else {
            None
        },
        _ => None,
    }
}

/// The frame a plain shot is taken on: the first of the comma-separated
/// `--frames`, if it reads as a number, else 120.
pub open spec fn first_frame_spec(frames: Option<Seq<char>>) -> u64 {
    match frames {
        Some(raw) => match parse_u64_spec(trim_spec(fields(raw, ',', ',')[0])) {
            Some(n) => n,
            None => 120,
        },
        None => 120,
    }
}

/// The frame a plain shot (no script) is taken on.
pub fn first_frame(frames: Option<&str>) -> (frame: u64)
    ensures
        frame == first_frame_spec(
            match frames {
                Some(f) => Some(f@),
                None => None,
            },
        ),
{
    match frames {
        None => 120,
        Some(raw) => {
            let chars = chars_of(raw);
            let s = chars.as_slice();
            let end = find_char(s, 0, chars.len(), ',');
            let (a, b) = trim_range(s, 0, end);
            proof {
                assert(s@.subrange(0, chars.len() as int) =~= raw@);
                lemma_fields_first(raw@, ',', ',', end as int);
            }
            match parse_u64(s, a, b) {
                Some(n) => n,
                None => 120,
            }
        },
    }
}

/// The prefix of the line the engine prints when it reaches a checkpoint.
pub open spec fn marker_prefix() -> Seq<char> {
    "slmsttaa: capture "@
}

/// The frame number a checkpoint marker announces, if `line` is one.
pub open spec fn marker_spec(line: Seq<char>) -> Option<u64> {
    let p = marker_prefix();
    if line.len() >= p.len() && line.subrange(0, p.len() as int) == p {
        parse_u64_spec(trim_spec(line.subrange(p.len() as int, line.len() as int)))
    } else {
        None
    }
}

/// The frame a line of the engine's output announces, if it is a checkpoint
/// marker; any other line is the demo's own output.
pub fn capture_marker(line: &str) -> (frame: Option<u64>)
    ensures
        frame == marker_spec(line@),
{
    let chars = chars_of(line);
    let s = chars.as_slice();
    let prefix = chars_of("slmsttaa: capture ");
    let p = prefix.len();
    if chars.len() < p || !range_is(s, 0, p, "slmsttaa: capture ") {
        return None;
    }
    let (a, b) = trim_range(s, p, chars.len());
    parse_u64(s, a, b)
}

/// Where a shot named `name` of `example` is written: `<example>.png` when
/// unnamed, `<example>-<name>.png` otherwise.
pub open spec fn shot_file_spec(example: Seq<char>, name: Seq<char>) -> Seq<char> {
    if name.len() == 0 {
        example + ".png"@
    } else {
        example + "-"@ + name + ".png"@
    }
}

/// The file name of a shot.
pub fn shot_file_name(example: &str, name: &str) -> (file: String)
    ensures
        file@ == shot_file_spec(example@, name@),
{
    let mut file = String::from_str(example);
    if name.unicode_len() == 0 {
        file.append(".png");
    } else {
        file.append("-");
        file.append(name);
        file.append(".png");
    }
    file
}

/// The decimal frame numbers, comma-separated.
pub open spec fn joined(frames: Seq<u64>) -> Seq<char>
    decreases frames.len(),
{
    if frames.len() == 0 {
        Seq::empty()
    } else if frames.len() == 1 {
        decimal(frames[0] as nat)
    } else {
        joined(frames.drop_last()) + ","@ + decimal(frames.last() as nat)
    }
}

/// The frame numbers, comma-separated: what the engine reads its checkpoints
/// from, and what the runner reports.
pub fn join_frames(frames: &[u64]) -> (s: String)
    ensures
        s@ == joined(frames@),
{
    let mut out: Vec<char> = Vec::new();
    let mut i: usize = 0;
    while i < frames.len()
        invariant
            i <= frames.len(),
            out@ == joined(frames@.take(i as int)),
        decreases frames.len() - i,
    {
        let digits = decimal_chars(frames[i]);
        if i > 0 {
            out.push(',');
        }
        let mut j: usize = 0;
        let ghost before = out@;
        while j < digits.len()
            invariant
                j <= digits.len(),
                out@ == before + digits@.take(j as int),
            decreases digits.len() - j,
        {
            out.push(digits[j]);
            assert(digits@.take(j + 1) =~= digits@.take(j as int).push(digits@[j as int]));
            j = j + 1;
        }
        proof {
            let t = frames@.take(i + 1);
            assert(t.drop_last() =~= frames@.take(i as int));
            assert(digits@.take(j as int) =~= digits@);
            if i > 0 {
                reveal_strlit(",");
                assert(out@ =~= joined(frames@.take(i as int)) + ","@ + decimal(t.last() as nat));
            } else {
                assert(out@ =~= decimal(t[0] as nat));
            }
        }
        i = i + 1;
    }
    assert(frames@.take(i as int) =~= frames@);
    string_from_chars(out.as_slice())
}

/// What the static file server does with a request.
#[derive(Debug)]
pub enum Route {
    /// Anything but `GET`: 405.
    NotAllowed,
    /// A path that climbs out of the served directory: 403.
    Forbidden,
    /// Serve this file, relative to the served directory (404 if it is not
    /// there).
    File(String),
}

/// What [`route`] decides, with the file as characters.
pub enum RouteView {
    /// 405.
    NotAllowed,
    /// 403.
    Forbidden,
    /// The file to serve.
    File(Seq<char>),
}

impl View for Route {
    type V = RouteView;

    open spec fn view(&self) -> RouteView {
        match self {
            Route::NotAllowed => RouteView::NotAllowed,
            Route::Forbidden => RouteView::Forbidden,
            Route::File(f) => RouteView::File(f@),
        }
    }
}

/// `s` without its leading `c`s.
pub open spec fn strip_leading(s: Seq<char>, c: char) -> Seq<char>
    decreases s.len(),
{
    if s.len() > 0 && s[0] == c {
        strip_leading(s.drop_first(), c)
    } else {
        s
    }
}

/// The file a request target names: the path before any `?`, without its
/// leading slashes, and `index.html` when that leaves nothing.
pub open spec fn requested_file(target: Seq<char>) -> Seq<char> {
    let stripped = strip_leading(fields(target, '?', '?')[0], '/');
    if stripped.len() == 0 {
        "index.html"@
    } else {
        stripped
    }
}

/// How the served directory's file system reads a path.
#[derive(Debug, Clone, Copy, PartialEq, Eq, Structural)]
pub enum PathStyle {
    /// Only `/` separates components; every other character is a name's.
    Posix,
    /// `\\` separates components too, and a `:` or a leading `\\` can leave
    /// the directory for another drive or share.
    Windows,
}

/// The second character that separates components, besides `/`.
pub open spec fn other_separator(style: PathStyle) -> char {
    match style {
        PathStyle::Posix => '/',
        PathStyle::Windows => '\\',
    }
}

/// The components of a path, as `style` splits it.
pub open spec fn components(rel: Seq<char>, style: PathStyle) -> Seq<Seq<char>> {
    fields(rel, '/', other_separator(style))
}

/// Whether `rel` names a file outside the served directory when read the
/// `style` way: a component that is `..`; and, on Windows, a drive prefix (a
/// `:` in the first component) or a leading `\\`.
pub open spec fn climbs_out(rel: Seq<char>, style: PathStyle) -> bool {
    ||| exists|k: int| 0 <= k < components(rel, style).len() && #[trigger] components(rel, style)[k] == ".."@
    ||| style == PathStyle::Windows && components(rel, style)[0].contains(':')
    ||| style == PathStyle::Windows && rel.len() > 0 && rel[0] == '\\'
}

/// What a request line asks for: `GET` and a target, anything else refused.
pub open spec fn route_spec(request_line: Seq<char>, style: PathStyle) -> RouteView {
    let w = words(request_line);
    let method = if w.len() > 0 {
        w[0]
    } else {
        Seq::empty()
    };
    if method != "GET"@ {
        RouteView::NotAllowed
    } else {
        let target = if w.len() > 1 {
            w[1]
        } else {
            "/"@
        };
        let rel = requested_file(target);
        if climbs_out(rel, style) {
            RouteView::Forbidden
        } else {
            RouteView::File(rel)
        }
    }
}

/// Decide what to answer a request with, from its request line and how the
/// served directory's file system reads paths: only `GET` is served, and path
/// traversal is refused outright.
pub fn route(request_line: &str, style: PathStyle) -> (r: Route)
    ensures
        r@ == route_spec(request_line@, style),
{
    let chars = chars_of(request_line);
    let s = chars.as_slice();
    let n = chars.len();
    proof {
        assert(s@.subrange(0, n as int) =~= request_line@);
    }
    let w = split_words(s, 0, n);
    let ghost ws = words(request_line@);
    if w.len() == 0 {
        proof {
            reveal_strlit("GET");
            assert("GET"@.len() == 3);
            assert(Seq::<char>::empty() != "GET"@);
        }
        return Route::NotAllowed;
    }
    if !range_is(s, w[0].0, w[0].1, "GET") {
        proof {
            assert(ws[0] == s@.subrange(w@[0].0 as int, w@[0].1 as int));
        }
        return Route::NotAllowed;
    }
    proof {
        assert(ws[0] == "GET"@);
        if w.len() > 1 {
            assert(ws[1] == s@.subrange(w@[1].0 as int, w@[1].1 as int));
        }
    }
    let target: Vec<char> = if w.len() > 1 {
        let (a, b) = w[1];
        let mut t: Vec<char> = Vec::new();
        let mut i = a;
        while i < b
            invariant
                a <= i <= b <= n,
                n == s.len(),
                t@ == s@.subrange(a as int, i as int),
            decreases b - i,
        {
            t.push(s[i]);
            assert(s@.subrange(a as int, i + 1) =~= s@.subrange(a as int, i as int).push(s@[i as int]));
            i = i + 1;
        }
        t
    } else {
        chars_of("/")
    };
    let ghost target_view = target@;
    let ts = target.as_slice();
    let tn = target.len();
    let q = find_char(ts, 0, tn, '?');
    proof {
        assert(ts@.subrange(0, tn as int) =~= target_view);
        lemma_fields_first(target_view, '?', '?', q as int);
    }
    let mut start: usize = 0;
    while start < q && ts[start] == '/'
        invariant
            start <= q <= tn == ts.len(),
            strip_leading(ts@.subrange(start as int, q as int), '/') == strip_leading(
                ts@.subrange(0, q as int),
                '/',
            ),
        decreases q - start,
    {
        assert(ts@.subrange(start as int, q as int).drop_first() =~= ts@.subrange(
            start + 1,
            q as int,
        ));
        start = start + 1;
    }
    let ghost stripped = ts@.subrange(start as int, q as int);
    proof {
        assert(strip_leading(stripped, '/') == stripped);
    }
    let rel: Vec<char> = if start == q {
        chars_of("index.html")
    } else {
        let mut r: Vec<char> = Vec::new();
        let mut i = start;
        while i < q
            invariant
                start <= i <= q <= ts.len(),
                r@ == ts@.subrange(start as int, i as int),
            decreases q - i,
        {
            r.push(ts[i]);
            assert(ts@.subrange(start as int, i + 1) =~= ts@.subrange(start as int, i as int).push(
                ts@[i as int],
            ));
            i = i + 1;
        }
        r
    };
    let rs = rel.as_slice();
    let rn = rel.len();
    let windows = match style {
        PathStyle::Windows => true,
        PathStyle::Posix => false,
    };
    let sep: char = if windows { '\\' } else { '/' };
    let parts = split_any(rs, 0, rn, '/', sep);
    proof {
        lemma_fields_nonempty(rel@, '/', sep);
        assert(sep == other_separator(style));
        assert(rs@.subrange(0, rn as int) =~= rel@);
        assert(rel@ == requested_file(target_view));
        assert(route_spec(request_line@, style) == (if climbs_out(rel@, style) {
            RouteView::Forbidden
        } else {
            RouteView::File(rel@)
        }));
    }
    let mut k: usize = 0;
    while k < parts.len()
        invariant
            k <= parts.len(),
            rs@ == rel@,
            rn == rs.len(),
            route_spec(request_line@, style) == (if climbs_out(rel@, style) {
                RouteView::Forbidden
            } else {
                RouteView::File(rel@)
            }),
            ranges_of(rs@, parts@, components(rel@, style), 0, rn as int),
            forall|j: int| 0 <= j < k ==> components(rel@, style)[j] != ".."@,
        decreases parts.len() - k,
    {
        let (a, b) = parts[k];
        if range_is(rs, a, b, "..") {
            return Route::Forbidden;
        }
        k = k + 1;
    }
    if !windows {
        return Route::File(string_from_chars(rs));
    }
    let (a0, b0) = parts[0];
    let colon = find_char(rs, a0, b0, ':');
    if colon < b0 {
        proof {
            let first = components(rel@, style)[0];
            assert(first == rs@.subrange(a0 as int, b0 as int));
            assert(first[colon - a0] == ':');
        }
        return Route::Forbidden;
    }
    if rn > 0 && rs[0] == '\\' {
        return Route::Forbidden;
    }
    proof {
        let first = components(rel@, style)[0];
        assert(first == rs@.subrange(a0 as int, b0 as int));
        assert(!first.contains(':')) by {
            if first.contains(':') {
                let j = choose|j: int| 0 <= j < first.len() && first[j] == ':';
                assert(rs@[a0 + j] == ':');
            }
        }
    }
    Route::File(string_from_chars(rs))
}

/// What a capture-script step does while the engine is held on its frame.
#[derive(Debug)]
pub enum Action {
    /// Photograph the window, under this name.
    Shot(String),
    /// Move the pointer, in physical pixels from the window's top-left.
    Move(u32, u32),
    /// Press and release the left button, both inside the held frame.
    Click,
    /// Hold the left button down and leave it down, so a drag spans frames.
    Press,
    /// Let the left button back up.
    Release,
    /// Turn the wheel by this many notches; negative scrolls down.
    Wheel(i32),
    /// Tap a key by its `xdotool` name.
    Key(String),
}

/// An [`Action`], with its names as characters.
pub enum ActionView {
    /// A shot.
    Shot(Seq<char>),
    /// A pointer move.
    Move(u32, u32),
    /// A click.
    Click,
    /// A press.
    Press,
    /// A release.
    Release,
    /// Wheel notches.
    Wheel(i32),
    /// A key tap.
    Key(Seq<char>),
}

impl View for Action {
    type V = ActionView;

    open spec fn view(&self) -> ActionView {
        match self {
            Action::Shot(n) => ActionView::Shot(n@),
            Action::Move(x, y) => ActionView::Move(*x, *y),
            Action::Click => ActionView::Click,
            Action::Press => ActionView::Press,
            Action::Release => ActionView::Release,
            Action::Wheel(n) => ActionView::Wheel(*n),
            Action::Key(k) => ActionView::Key(k@),
        }
    }
}

/// One step of a capture script: what to do, and on which frame.
#[derive(Debug)]
pub struct Step {
    /// The engine is held on this frame while the action runs.
    pub frame: u64,
    /// What to do.
    pub action: Action,
}

/// A [`Step`], viewed.
pub struct StepView {
    /// The frame.
    pub frame: u64,
    /// The action.
    pub action: ActionView,
}

impl View for Step {
    type V = StepView;

    open spec fn view(&self) -> StepView {
        StepView { frame: self.frame, action: self.action@ }
    }
}

/// Why a line of a capture script was refused.
#[derive(Debug)]
pub enum ScriptErrorKind {
    /// The line does not start with a frame number.
    NoFrame,
    /// Nothing follows the frame number.
    NoAction,
    /// `move` without two coordinates.
    BadMove,
    /// `wheel` without a notch count.
    BadWheel,
    /// `key` without a key name.
    NoKeyName,
    /// A verb the script language does not have.
    UnknownAction(String),
}

/// A [`ScriptErrorKind`], viewed.
pub enum ScriptErrorView {
    /// No frame.
    NoFrame,
    /// No action.
    NoAction,
    /// Bad move.
    BadMove,
    /// Bad wheel.
    BadWheel,
    /// No key name.
    NoKeyName,
    /// Unknown verb.
    UnknownAction(Seq<char>),
}

impl View for ScriptErrorKind {
    type V = ScriptErrorView;

    open spec fn view(&self) -> ScriptErrorView {
        match self {
            ScriptErrorKind::NoFrame => ScriptErrorView::NoFrame,
            ScriptErrorKind::NoAction => ScriptErrorView::NoAction,
            ScriptErrorKind::BadMove => ScriptErrorView::BadMove,
            ScriptErrorKind::BadWheel => ScriptErrorView::BadWheel,
            ScriptErrorKind::NoKeyName => ScriptErrorView::NoKeyName,
            ScriptErrorKind::UnknownAction(v) => ScriptErrorView::UnknownAction(v@),
        }
    }
}

/// A refused capture script: the 1-based line, and why.
#[derive(Debug)]
pub struct ScriptError {
    /// The line the problem is on, counting from 1.
    pub line: usize,
    /// What is wrong with it.
    pub kind: ScriptErrorKind,
}

/// The message each refusal is reported with.
pub open spec fn script_error_message(kind: ScriptErrorView) -> Seq<char> {
    match kind {
        ScriptErrorView::NoFrame => "expected a frame number first"@,
        ScriptErrorView::NoAction => "expected an action after the frame number"@,
        ScriptErrorView::BadMove => "move needs X and Y"@,
        ScriptErrorView::BadWheel => "wheel needs a notch count, negative to scroll down"@,
        ScriptErrorView::NoKeyName => "key needs a key name"@,
        ScriptErrorView::UnknownAction(v) => "unknown action `"@ + v + "`"@,
    }
}

impl ScriptErrorKind {
    /// What to tell the script's author.
    pub fn message(&self) -> (m: String)
        ensures
            m@ == script_error_message(self@),
    {
        match self {
            ScriptErrorKind::NoFrame => String::from_str("expected a frame number first"),
            ScriptErrorKind::NoAction => String::from_str(
                "expected an action after the frame number",
            ),
            ScriptErrorKind::BadMove => String::from_str("move needs X and Y"),
            ScriptErrorKind::BadWheel => String::from_str(
                "wheel needs a notch count, negative to scroll down",
            ),
            ScriptErrorKind::NoKeyName => String::from_str("key needs a key name"),
            ScriptErrorKind::UnknownAction(v) => {
                let mut m = String::from_str("unknown action `");
                m.append(v.as_str());
                m.append("`");
                m
            },
        }
    }
}

/// `l` without one trailing carriage return.
pub open spec fn strip_cr(l: Seq<char>) -> Seq<char> {
    if l.len() > 0 && l.last() == '\r' {
        l.drop_last()
    } else {
        l
    }
}

/// The lines of `s` as `str::lines` yields them: split at `\n`, a `\r` before
/// a `\n` dropped, and no empty line after a final `\n`.
pub open spec fn lines(s: Seq<char>) -> Seq<Seq<char>> {
    let f = fields(s, '\n', '\n');
    let body = if f.last().len() == 0 {
        f.drop_last()
    } else {
        f
    };
    Seq::new(
        body.len(),
        |i: int|
            if i < f.len() - 1 {
                strip_cr(body[i])
            } else {
                body[i]
            },
    )
}

/// The words of a script line, a `#` and all that follows it ignored.
pub open spec fn line_words(line: Seq<char>) -> Seq<Seq<char>> {
    words(fields(line, '#', '#')[0])
}

/// A non-blank script line's words, read as a step.
pub open spec fn step_spec(w: Seq<Seq<char>>) -> Result<StepView, ScriptErrorView> {
    match parse_u64_spec(w[0]) {
        None => Err(ScriptErrorView::NoFrame),
        Some(frame) => if w.len() < 2 {
            Err(ScriptErrorView::NoAction)
        } else {
            let verb = w[1];
            let action = if verb == "shot"@ {
                Ok(
                    ActionView::Shot(
                        if w.len() > 2 {
                            w[2]
                        } else {
                            "shot"@
                        },
                    ),
                )
            } else if verb == "move"@ {
                if w.len() > 3 && parse_u32_spec(w[2]) is Some && parse_u32_spec(w[3]) is Some {
                    Ok(ActionView::Move(parse_u32_spec(w[2])->0, parse_u32_spec(w[3])->0))
                } else {
                    Err(ScriptErrorView::BadMove)
                }
            } else if verb == "click"@ {
                Ok(ActionView::Click)
            } else if verb == "press"@ {
                Ok(ActionView::Press)
            } else if verb == "release"@ {
                Ok(ActionView::Release)
            } else if verb == "wheel"@ {
                if w.len() > 2 && parse_i32_spec(w[2]) is Some {
                    Ok(ActionView::Wheel(parse_i32_spec(w[2])->0))
                } else {
                    Err(ScriptErrorView::BadWheel)
                }
            } else if verb == "key"@ {
                if w.len() > 2 {
                    Ok(ActionView::Key(w[2]))
                } else {
                    Err(ScriptErrorView::NoKeyName)
                }
            } else {
                Err(ScriptErrorView::UnknownAction(verb))
            };
            match action {
                Ok(a) => Ok(StepView { frame, action: a }),
                Err(e) => Err(e),
            }
        },
    }
}

/// The steps of the first `n` lines of a script, or the first line (counted
/// from 1) that is refused, and why.
pub open spec fn script_prefix(ls: Seq<Seq<char>>, n: nat) -> Result<Seq<StepView>, (nat, ScriptErrorView)>
    decreases n,
{
    if n == 0 {
        Ok(Seq::empty())
    } else {
        match script_prefix(ls, (n - 1) as nat) {
            Err(e) => Err(e),
            Ok(steps) => {
                let w = line_words(ls[n - 1]);
                if w.len() == 0 {
                    Ok(steps)
                } else {
                    match step_spec(w) {
                        Ok(step) => Ok(steps.push(step)),
                        Err(k) => Err((n, k)),
                    }
                }
            },
        }
    }
}

/// Once a line is refused, the rest of the script does not matter.
pub proof fn lemma_first_refusal_stands(ls: Seq<Seq<char>>, m: nat, later: nat)
    requires
        m <= later,
        script_prefix(ls, m) is Err,
    ensures
        script_prefix(ls, later) == script_prefix(ls, m),
    decreases later - m,
{
    if m < later {
        lemma_first_refusal_stands(ls, m, (later - 1) as nat);
    }
}

/// What a whole capture script reads as.
pub open spec fn script_spec(text: Seq<char>) -> Result<Seq<StepView>, (nat, ScriptErrorView)> {
    script_prefix(lines(text), lines(text).len())
}

/// Read one script line's words, ranges into `s`, as a step.
fn parse_step(s: &[char], w: &Vec<(usize, usize)>, lo: usize, hi: usize) -> (r: Result<Step, ScriptErrorKind>)
    requires
        lo <= hi <= s.len(),
        w.len() > 0,
        ranges_of(s@, w@, words(s@.subrange(lo as int, hi as int)), lo as int, hi as int),
    ensures
        match (r, step_spec(words(s@.subrange(lo as int, hi as int)))) {
            (Ok(step), Ok(v)) => step@ == v,
            (Err(k), Err(v)) => k@ == v,
            _ => false,
        },
{
    let ghost ws = words(s@.subrange(lo as int, hi as int));
    proof {
        assert forall|k: int| 0 <= k < w.len() implies ws[k] == s@.subrange(
            w@[k].0 as int,
            w@[k].1 as int,
        ) by {}
    }
    let frame = match parse_u64(s, w[0].0, w[0].1) {
        Some(f) => f,
        None => return Err(ScriptErrorKind::NoFrame),
    };
    if w.len() < 2 {
        return Err(ScriptErrorKind::NoAction);
    }
    let (va, vb) = w[1];
    let action = if range_is(s, va, vb, "shot") {
        if w.len() > 2 {
            Action::Shot(string_of_range(s, w[2].0, w[2].1))
        } else {
            Action::Shot(String::from_str("shot"))
        }
    } else if range_is(s, va, vb, "move") {
        if w.len() > 3 {
            let x = parse_u32(s, w[2].0, w[2].1);
            let y = parse_u32(s, w[3].0, w[3].1);
            match (x, y) {
                (Some(x), Some(y)) => Action::Move(x, y),
                _ => return Err(ScriptErrorKind::BadMove),
            }
        } else {
            return Err(ScriptErrorKind::BadMove);
        }
    } else if range_is(s, va, vb, "click") {
        Action::Click
    } else if range_is(s, va, vb, "press") {
        Action::Press
    } else if range_is(s, va, vb, "release") {
        Action::Release
    } else if range_is(s, va, vb, "wheel") {
        if w.len() > 2 {
            match parse_i32(s, w[2].0, w[2].1) {
                Some(n) => Action::Wheel(n),
                None => return Err(ScriptErrorKind::BadWheel),
            }
        } else {
            return Err(ScriptErrorKind::BadWheel);
        }
    } else if range_is(s, va, vb, "key") {
        if w.len() > 2 {
            Action::Key(string_of_range(s, w[2].0, w[2].1))
        } else {
            return Err(ScriptErrorKind::NoKeyName);
        }
    } else {
        return Err(ScriptErrorKind::UnknownAction(string_of_range(s, va, vb)));
    };
    Ok(Step { frame, action })
}

/// Parse a capture script: one step per line, frame number first, `#`
/// starts a comment, blank lines skipped.
///
/// ```text
/// 120  shot   inset
/// 120  move   414 368
/// 150  click
/// 150  wheel  -3
/// ```
pub fn parse_script(text: &str) -> (r: Result<Vec<Step>, ScriptError>)
    ensures
        match (r, script_spec(text@)) {
            (Ok(steps), Ok(v)) => steps@.map_values(|st: Step| st@) == v,
            (Err(e), Err((line, kind))) => e.line == line && e.kind@ == kind,
            _ => false,
        },
{
    let chars = chars_of(text);
    let s = chars.as_slice();
    let n = chars.len();
    let f = split_any(s, 0, n, '\n', '\n');
    let ghost fv = fields(text@, '\n', '\n');
    proof {
        assert(s@.subrange(0, n as int) =~= text@);
        crate::text::lemma_fields_nonempty(text@, '\n', '\n');
    }
    let last = f[f.len() - 1];
    let count = if last.0 == last.1 {
        f.len() - 1
    } else {
        f.len()
    };
    let ghost ls = lines(text@);
    proof {
        assert(fv.last() == s@.subrange(last.0 as int, last.1 as int));
        assert(ls.len() == count);
    }
    let mut steps: Vec<Step> = Vec::new();
    assert(steps@.map_values(|st: Step| st@) =~= Seq::<StepView>::empty());
    let mut i: usize = 0;
    while i < count
        invariant
            i <= count <= f.len(),
            count == ls.len(),
            ls == lines(text@),
            fv == fields(text@, '\n', '\n'),
            s@ == text@,
            n == s.len(),
            ranges_of(s@, f@, fv, 0, n as int),
            script_prefix(ls, i as nat) == Ok::<Seq<StepView>, (nat, ScriptErrorView)>(
                steps@.map_values(|st: Step| st@),
            ),
        decreases count - i,
    {
        let (a, b0) = f[i];
        let b = if i + 1 < f.len() && b0 > a && s[b0 - 1] == '\r' {
            b0 - 1
        } else {
            b0
        };
        proof {
            let raw = fv[i as int];
            assert(raw == s@.subrange(a as int, b0 as int));
            if i + 1 < f.len() && b0 > a && s@[b0 - 1] == '\r' {
                assert(raw.drop_last() =~= s@.subrange(a as int, b as int));
            }
            assert(ls[i as int] == s@.subrange(a as int, b as int));
        }
        let c = find_char(s, a, b, '#');
        proof {
            let line = s@.subrange(a as int, b as int);
            crate::text::lemma_fields_first(line, '#', '#', c - a);
            assert(line.subrange(0, c - a) =~= s@.subrange(a as int, c as int));
        }
        let w = split_words(s, a, c);
        let ghost before = steps@.map_values(|st: Step| st@);
        proof {
            assert(line_words(ls[i as int]) == words(s@.subrange(a as int, c as int)));
        }
        if w.len() > 0 {
            match parse_step(s, &w, a, c) {
                Ok(step) => {
                    steps.push(step);
                    proof {
                        assert(steps@.map_values(|st: Step| st@) =~= before.push(step@));
                    }
                },
                Err(kind) => {
                    proof {
                        assert(script_prefix(ls, (i + 1) as nat) == Err::<Seq<StepView>, (nat, ScriptErrorView)>(
                            ((i + 1) as nat, kind@),
                        ));
                        lemma_first_refusal_stands(ls, (i + 1) as nat, count as nat);
                    }
                    return Err(ScriptError { line: i + 1, kind });
                },
            }
        }
        i = i + 1;
    }
    Ok(steps)
}

/// The steps of a run without a script: one shot, unnamed, on the first of
/// `--frames` (120 by default).
pub fn default_steps(frames: Option<&str>) -> (steps: Vec<Step>)
    ensures
        steps@.len() == 1,
        steps@[0]@ == (StepView {
            frame: first_frame_spec(
                match frames {
                    Some(f) => Some(f@),
                    None => None,
                },
            ),
            action: ActionView::Shot(Seq::empty()),
        }),
{
    let frame = first_frame(frames);
    let mut steps: Vec<Step> = Vec::new();
    steps.push(Step { frame, action: Action::Shot(String::new()) });
    steps
}

/// The frames the engine must stop on: every frame any step names, sorted,
/// each once.
pub fn checkpoints_of(steps: &[Step]) -> (frames: Vec<u64>)
    ensures
        strictly_increasing(frames@),
        forall|f: u64|
            frames@.contains(f) <==> exists|i: int| 0 <= i < steps@.len() && #[trigger] steps@[i].frame == f,
{
    let mut frames: Vec<u64> = Vec::new();
    let mut i: usize = 0;
    while i < steps.len()
        invariant
            i <= steps.len(),
            strictly_increasing(frames@),
            forall|f: u64|
                frames@.to_set().contains(f) <==> exists|j: int| 0 <= j < i && #[trigger] steps@[j].frame == f,
        decreases steps.len() - i,
    {
        let ghost before = frames@.to_set();
        insert_sorted(&mut frames, steps[i].frame);
        proof {
            assert forall|f: u64| frames@.to_set().contains(f) <==> exists|j: int|
                0 <= j < i + 1 && #[trigger] steps@[j].frame == f by {
                if f == steps@[i as int].frame {
                    assert(steps@[i as int].frame == f);
                }
                if before.contains(f) {
                    let j = choose|j: int| 0 <= j < i && #[trigger] steps@[j].frame == f;
                    assert(0 <= j < i + 1);
                }
                if exists|j: int| 0 <= j < i + 1 && #[trigger] steps@[j].frame == f {
                    let j = choose|j: int| 0 <= j < i + 1 && #[trigger] steps@[j].frame == f;
                    if j < i {
                        assert(before.contains(f));
                    }
                }
            }
        }
        i = i + 1;
    }
    proof {
        assert forall|f: u64| frames@.contains(f) <==> frames@.to_set().contains(f) by {}
    }
    frames
}

/// The positions among the first `n` steps of those that run on `frame`, in
/// script order.
pub open spec fn positions_on(steps: Seq<Step>, frame: u64, n: nat) -> Seq<usize>
    decreases n,
{
    if n == 0 {
        Seq::empty()
    } else {
        let p = positions_on(steps, frame, (n - 1) as nat);
        if steps[n - 1].frame == frame {
            p.push((n - 1) as usize)
        } else {
            p
        }
    }
}

/// The order a capture run carries the steps out in: for each checkpoint in
/// turn, the steps on that frame in script order.
pub open spec fn run_order(steps: Seq<Step>, checkpoints: Seq<u64>) -> Seq<usize>
    decreases checkpoints.len(),
{
    if checkpoints.len() == 0 {
        Seq::empty()
    } else {
        run_order(steps, checkpoints.drop_last()) + positions_on(
            steps,
            checkpoints.last(),
            steps.len(),
        )
    }
}

/// What `positions_on` holds: ascending positions below `n`, on `frame`, all
/// of them.
proof fn lemma_positions_on(steps: Seq<Step>, frame: u64, n: nat)
    requires
        n <= steps.len() <= usize::MAX,
    ensures
        forall|k: int| 0 <= k < positions_on(steps, frame, n).len() ==> #[trigger] positions_on(steps, frame, n)[k] < n
            && steps[positions_on(steps, frame, n)[k] as int].frame == frame,
        forall|k: int, l: int|
            0 <= k < l < positions_on(steps, frame, n).len() ==> #[trigger] positions_on(steps, frame, n)[k]
                < #[trigger] positions_on(steps, frame, n)[l],
        forall|j: int| 0 <= j < n && #[trigger] steps[j].frame == frame ==> positions_on(steps, frame, n).contains(j as usize),
    decreases n,
{
    if n > 0 {
        let m = (n - 1) as nat;
        lemma_positions_on(steps, frame, m);
        let p = positions_on(steps, frame, m);
        if steps[m as int].frame == frame {
            let q = p.push(m as usize);
            assert(positions_on(steps, frame, n) == q);
            assert forall|j: int| 0 <= j < n && #[trigger] steps[j].frame == frame implies q.contains(j as usize) by {
                if j < m {
                    assert(p.contains(j as usize));
                    let k = choose|k: int| 0 <= k < p.len() && p[k] == j as usize;
                    assert(q[k] == j as usize);
                } else {
                    assert(q[p.len() as int] == j as usize);
                }
            }
        }
    }
}

/// The facts about `run_order` the run law rests on, for any increasing list
/// of checkpoints.
proof fn lemma_run_order(steps: Seq<Step>, cps: Seq<u64>)
    requires
        steps.len() <= usize::MAX,
        strictly_increasing(cps),
    ensures
        forall|k: int| 0 <= k < run_order(steps, cps).len() ==> #[trigger] run_order(steps, cps)[k] < steps.len()
            && cps.contains(steps[run_order(steps, cps)[k] as int].frame),
        forall|k: int, l: int|
            0 <= k < l < run_order(steps, cps).len() ==> comes_before(
                steps,
                #[trigger] run_order(steps, cps)[k],
                #[trigger] run_order(steps, cps)[l],
            ),
        forall|j: int|
            0 <= j < steps.len() && cps.contains(#[trigger] steps[j].frame) ==> run_order(steps, cps).contains(j as usize),
    decreases cps.len(),
{
    if cps.len() > 0 {
        let init = cps.drop_last();
        let f = cps.last();
        lemma_run_order(steps, init);
        lemma_positions_on(steps, f, steps.len());
        let r = run_order(steps, init);
        let p = positions_on(steps, f, steps.len());
        let all = r + p;
        assert(run_order(steps, cps) == all);
        assert forall|k: int| 0 <= k < all.len() implies #[trigger] all[k] < steps.len() && cps.contains(
            steps[all[k] as int].frame,
        ) by {
            if k < r.len() {
                assert(all[k] == r[k]);
                let fr = steps[r[k] as int].frame;
                assert(init.contains(fr));
                let i = choose|i: int| 0 <= i < init.len() && init[i] == fr;
                assert(cps[i] == fr);
            } else {
                assert(all[k] == p[k - r.len()]);
                assert(cps[cps.len() - 1] == f);
            }
        }
        assert forall|k: int, l: int| 0 <= k < l < all.len() implies comes_before(
            steps,
            #[trigger] all[k],
            #[trigger] all[l],
        ) by {
            if l < r.len() {
                assert(all[k] == r[k] && all[l] == r[l]);
            } else if k >= r.len() {
                assert(all[k] == p[k - r.len()] && all[l] == p[l - r.len()]);
            } else {
                assert(all[k] == r[k] && all[l] == p[l - r.len()]);
                let fr = steps[r[k] as int].frame;
                assert(init.contains(fr));
                let i = choose|i: int| 0 <= i < init.len() && init[i] == fr;
                assert(cps[i] == fr && cps[cps.len() - 1] == f);
            }
        }
        assert forall|j: int| 0 <= j < steps.len() && cps.contains(#[trigger] steps[j].frame) implies all.contains(
            j as usize,
        ) by {
            let fr = steps[j].frame;
            let i = choose|i: int| 0 <= i < cps.len() && cps[i] == fr;
            if i < cps.len() - 1 {
                assert(init[i] == fr);
                assert(r.contains(j as usize));
                let k = choose|k: int| 0 <= k < r.len() && r[k] == j as usize;
                assert(all[k] == j as usize);
            } else {
                assert(p.contains(j as usize));
                let k = choose|k: int| 0 <= k < p.len() && p[k] == j as usize;
                assert(all[r.len() + k] == j as usize);
            }
        }
    }
}

/// Whether step `a` runs before step `b`: on an earlier frame, or on the same
/// frame and earlier in the script.
pub open spec fn comes_before(steps: Seq<Step>, a: usize, b: usize) -> bool {
    steps[a as int].frame < steps[b as int].frame || (steps[a as int].frame == steps[b as int].frame && a < b)
}

/// A capture run over the checkpoints `checkpoints_of` gives, taking
/// `steps_on` of each in turn, carries out every step exactly once: each
/// position it visits is a step, every step is visited, and one step comes
/// before another exactly when its frame is earlier, or the frame is the same
/// and it comes first in the script. So no step is visited twice.
pub proof fn lemma_run_visits_each_step_once(steps: Seq<Step>, checkpoints: Seq<u64>)
    requires
        steps.len() <= usize::MAX,
        strictly_increasing(checkpoints),
        forall|f: u64|
            checkpoints.contains(f) <==> exists|i: int| 0 <= i < steps.len() && #[trigger] steps[i].frame == f,
    ensures
        forall|k: int| 0 <= k < run_order(steps, checkpoints).len() ==> #[trigger] run_order(steps, checkpoints)[k]
            < steps.len(),
        forall|j: int| 0 <= j < steps.len() ==> #[trigger] run_order(steps, checkpoints).contains(j as usize),
        forall|k: int, l: int|
            0 <= k < l < run_order(steps, checkpoints).len() ==> comes_before(
                steps,
                #[trigger] run_order(steps, checkpoints)[k],
                #[trigger] run_order(steps, checkpoints)[l],
            ),
        forall|k: int, l: int|
            0 <= k < l < run_order(steps, checkpoints).len() ==> #[trigger] run_order(steps, checkpoints)[k]
                != #[trigger] run_order(steps, checkpoints)[l],
{
    lemma_run_order(steps, checkpoints);
    let r = run_order(steps, checkpoints);
    assert forall|j: int| 0 <= j < steps.len() implies #[trigger] r.contains(j as usize) by {
        assert(steps[j].frame == steps[j].frame);
        assert(checkpoints.contains(steps[j].frame));
    }
    assert forall|k: int, l: int| 0 <= k < l < r.len() implies #[trigger] r[k] != #[trigger] r[l] by {
        assert(comes_before(steps, r[k], r[l]));
    }
}

/// The positions of the steps that run on `frame`, in script order.
pub fn steps_on(steps: &[Step], frame: u64) -> (at: Vec<usize>)
    ensures
        at@ == positions_on(steps@, frame, steps@.len()),
        forall|k: int| 0 <= k < at@.len() ==> #[trigger] at@[k] < steps@.len() && steps@[at@[k] as int].frame == frame,
        forall|k: int, l: int| 0 <= k < l < at@.len() ==> at@[k] < at@[l],
        forall|j: int| 0 <= j < steps@.len() && #[trigger] steps@[j].frame == frame ==> at@.contains(j as usize),
{
    let mut at: Vec<usize> = Vec::new();
    let mut i: usize = 0;
    while i < steps.len()
        invariant
            i <= steps.len(),
            forall|k: int| 0 <= k < at@.len() ==> #[trigger] at@[k] < i && steps@[at@[k] as int].frame == frame,
            forall|k: int, l: int| 0 <= k < l < at@.len() ==> at@[k] < at@[l],
            forall|j: int| 0 <= j < i && #[trigger] steps@[j].frame == frame ==> at@.contains(j as usize),
            at@ == positions_on(steps@, frame, i as nat),
        decreases steps.len() - i,
    {
        if steps[i].frame == frame {
            let ghost before = at@;
            at.push(i);
            proof {
                assert forall|j: int| 0 <= j < i + 1 && #[trigger] steps@[j].frame == frame implies at@.contains(
                    j as usize,
                ) by {
                    if j < i {
                        let k = choose|k: int| 0 <= k < before.len() && before[k] == j as usize;
                        assert(at@[k] == j as usize);
                    } else {
                        assert(at@[at@.len() - 1] == j as usize);
                    }
                }
            }
        }
        i = i + 1;
    }
    at
}

} // verus!
