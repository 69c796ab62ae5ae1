//! Which graphics backend and which device limits to ask for.
//!
//! Both can be overridden for debugging: natively through an environment
//! variable, in the browser through the page's query string (`?backend=gl`).
//! The names are matched without regard to ASCII case; an unknown name falls
//! back to the default. Turning the choice into the graphics library's own
//! values is the renderer's job.
use vstd::prelude::*;
use crate::text::{chars_of, fields, find_char, lemma_fields_first, range_is, ranges_of, split_any, string_of_range};

verus! {

/// A backend override.
#[derive(Debug, Clone, Copy, PartialEq, Eq, Structural)]
pub enum BackendChoice {
    /// No override, or `primary` / `default`: the platform's default set.
    Default,
    /// `gl`, `webgl`, `webgl2` or `opengl`.
    Gl,
    /// `webgpu` or `browser_webgpu`.
    WebGpu,
    /// `vulkan`.
    Vulkan,
    /// `dx12` or `d3d12`.
    Dx12,
    /// `metal`.
    Metal,
    /// A name this engine does not know; the default is used.
    Unknown,
}

/// A device-limits override.
#[derive(Debug, Clone, Copy, PartialEq, Eq, Structural)]
pub enum LimitsChoice {
    /// No override: the platform's default.
    Default,
    /// `webgl2`, `webgl` or `gl`: WebGL2's downlevel limits.
    WebGl2,
    /// `downlevel`: the downlevel defaults.
    Downlevel,
    /// `default` or `full`: the full defaults.
    Full,
    /// A name this engine does not know; the default is used.
    Unknown,
}

/// `c` in ASCII lower case.
pub open spec fn ascii_lower(c: char) -> char {
    if 'A' <= c && c <= 'Z' {
        (((c as u8) + 32) as u8) as char
    } else {
        c
    }
}

/// `s` in ASCII lower case, as `str::to_ascii_lowercase`.
pub open spec fn lowercase(s: Seq<char>) -> Seq<char> {
    Seq::new(s.len(), |i: int| ascii_lower(s[i]))
}

/// `s` in ASCII lower case.
fn lowercase_chars(s: &str) -> (out: Vec<char>)
    ensures
        out@ == lowercase(s@),
{
    let chars = chars_of(s);
    let mut out: Vec<char> = Vec::new();
    let mut i: usize = 0;
    while i < chars.len()
        invariant
            i <= chars.len(),
            chars@ == s@,
            out@ =~= lowercase(s@).take(i as int),
        decreases chars.len() - i,
    {
        let c = chars[i];
        let l = if 'A' <= c && c <= 'Z' {
            ((c as u8) + 32) as char
        } else {
            c
        };
        out.push(l);
        i = i + 1;
    }
    assert(lowercase(s@).take(i as int) =~= lowercase(s@));
    out
}

/// The backend a name asks for.
pub open spec fn backend_spec(name: Option<Seq<char>>) -> BackendChoice {
    match name {
        None => BackendChoice::Default,
        Some(n) => {
            let l = lowercase(n);
            if l == "gl"@ || l == "webgl"@ || l == "webgl2"@ || l == "opengl"@ {
                BackendChoice::Gl
            } else if l == "webgpu"@ || l == "browser_webgpu"@ {
                BackendChoice::WebGpu
            } else if l == "vulkan"@ {
                BackendChoice::Vulkan
            } else if l == "dx12"@ || l == "d3d12"@ {
                BackendChoice::Dx12
            } else if l == "metal"@ {
                BackendChoice::Metal
            } else if l == "primary"@ || l == "default"@ {
                BackendChoice::Default
            } else {
                BackendChoice::Unknown
            }
        },
    }
}

/// The backend an override names, if one was given.
pub fn backend_choice(name: Option<&str>) -> (c: BackendChoice)
    ensures
        c == backend_spec(
            match name {
                Some(n) => Some(n@),
                None => None,
            },
        ),
{
    match name {
        None => BackendChoice::Default,
        Some(n) => {
            let l = lowercase_chars(n);
            let s = l.as_slice();
            let k = l.len();
            proof {
                assert(s@.subrange(0, k as int) =~= lowercase(n@));
            }
            if range_is(s, 0, k, "gl") || range_is(s, 0, k, "webgl") || range_is(s, 0, k, "webgl2")
                || range_is(s, 0, k, "opengl") {
                BackendChoice::Gl
            } else if range_is(s, 0, k, "webgpu") || range_is(s, 0, k, "browser_webgpu") {
                BackendChoice::WebGpu
            } else if range_is(s, 0, k, "vulkan") {
                BackendChoice::Vulkan
            } else if range_is(s, 0, k, "dx12") || range_is(s, 0, k, "d3d12") {
                BackendChoice::Dx12
            } else if range_is(s, 0, k, "metal") {
                BackendChoice::Metal
            } else if range_is(s, 0, k, "primary") || range_is(s, 0, k, "default") {
                BackendChoice::Default
            } else {
                BackendChoice::Unknown
            }
        },
    }
}

/// The names each backend answers to, in lower case.
pub open spec fn names_backend(l: Seq<char>, c: BackendChoice) -> bool {
    match c {
        BackendChoice::Gl => l == "gl"@ || l == "webgl"@ || l == "webgl2"@ || l == "opengl"@,
        BackendChoice::WebGpu => l == "webgpu"@ || l == "browser_webgpu"@,
        BackendChoice::Vulkan => l == "vulkan"@,
        BackendChoice::Dx12 => l == "dx12"@ || l == "d3d12"@,
        BackendChoice::Metal => l == "metal"@,
        BackendChoice::Default => l == "primary"@ || l == "default"@,
        BackendChoice::Unknown => false,
    }
}

/// Every name a backend answers to selects it, in any mix of cases; and a
/// name selects a backend only if it is one of that backend's names.
pub proof fn lemma_backend_names(n: Seq<char>, c: BackendChoice)
    ensures
        names_backend(lowercase(n), c) ==> backend_spec(Some(n)) == c,
        backend_spec(Some(n)) == c && c != BackendChoice::Unknown ==> names_backend(lowercase(n), c),
{
    reveal_strlit("gl");
    reveal_strlit("webgl");
    reveal_strlit("webgl2");
    reveal_strlit("opengl");
    reveal_strlit("webgpu");
    reveal_strlit("browser_webgpu");
    reveal_strlit("vulkan");
    reveal_strlit("dx12");
    reveal_strlit("d3d12");
    reveal_strlit("metal");
    reveal_strlit("primary");
    reveal_strlit("default");
    assert("webgl"@.len() != "gl"@.len());
    assert("webgl2"@.len() != "gl"@.len());
    assert("webgl2"@.len() != "webgl"@.len());
    assert("opengl"@.len() != "gl"@.len());
    assert("opengl"@.len() != "webgl"@.len());
    assert("opengl"@[0] != "webgl2"@[0]);
    assert("webgpu"@.len() != "gl"@.len());
    assert("webgpu"@.len() != "webgl"@.len());
    assert("webgpu"@[4] != "webgl2"@[4]);
    assert("webgpu"@[0] != "opengl"@[0]);
    assert("browser_webgpu"@.len() != "gl"@.len());
    assert("browser_webgpu"@.len() != "webgl"@.len());
    assert("browser_webgpu"@.len() != "webgl2"@.len());
    assert("browser_webgpu"@.len() != "opengl"@.len());
    assert("browser_webgpu"@.len() != "webgpu"@.len());
    assert("vulkan"@.len() != "gl"@.len());
    assert("vulkan"@.len() != "webgl"@.len());
    assert("vulkan"@[0] != "webgl2"@[0]);
    assert("vulkan"@[0] != "opengl"@[0]);
    assert("vulkan"@[0] != "webgpu"@[0]);
    assert("vulkan"@.len() != "browser_webgpu"@.len());
    assert("dx12"@.len() != "gl"@.len());
    assert("dx12"@.len() != "webgl"@.len());
    assert("dx12"@.len() != "webgl2"@.len());
    assert("dx12"@.len() != "opengl"@.len());
    assert("dx12"@.len() != "webgpu"@.len());
    assert("dx12"@.len() != "browser_webgpu"@.len());
    assert("dx12"@.len() != "vulkan"@.len());
    assert("d3d12"@.len() != "gl"@.len());
    assert("d3d12"@[0] != "webgl"@[0]);
    assert("d3d12"@.len() != "webgl2"@.len());
    assert("d3d12"@.len() != "opengl"@.len());
    assert("d3d12"@.len() != "webgpu"@.len());
    assert("d3d12"@.len() != "browser_webgpu"@.len());
    assert("d3d12"@.len() != "vulkan"@.len());
    assert("d3d12"@.len() != "dx12"@.len());
    assert("metal"@.len() != "gl"@.len());
    assert("metal"@[0] != "webgl"@[0]);
    assert("metal"@.len() != "webgl2"@.len());
    assert("metal"@.len() != "opengl"@.len());
    assert("metal"@.len() != "webgpu"@.len());
    assert("metal"@.len() != "browser_webgpu"@.len());
    assert("metal"@.len() != "vulkan"@.len());
    assert("metal"@.len() != "dx12"@.len());
    assert("metal"@[0] != "d3d12"@[0]);
    assert("primary"@.len() != "gl"@.len());
    assert("primary"@.len() != "webgl"@.len());
    assert("primary"@.len() != "webgl2"@.len());
    assert("primary"@.len() != "opengl"@.len());
    assert("primary"@.len() != "webgpu"@.len());
    assert("primary"@.len() != "browser_webgpu"@.len());
    assert("primary"@.len() != "vulkan"@.len());
    assert("primary"@.len() != "dx12"@.len());
    assert("primary"@.len() != "d3d12"@.len());
    assert("primary"@.len() != "metal"@.len());
    assert("default"@.len() != "gl"@.len());
    assert("default"@.len() != "webgl"@.len());
    assert("default"@.len() != "webgl2"@.len());
    assert("default"@.len() != "opengl"@.len());
    assert("default"@.len() != "webgpu"@.len());
    assert("default"@.len() != "browser_webgpu"@.len());
    assert("default"@.len() != "vulkan"@.len());
    assert("default"@.len() != "dx12"@.len());
    assert("default"@.len() != "d3d12"@.len());
    assert("default"@.len() != "metal"@.len());
    assert("default"@[0] != "primary"@[0]);
}

/// The names each limit set answers to, in lower case.
pub open spec fn names_limits(l: Seq<char>, c: LimitsChoice) -> bool {
    match c {
        LimitsChoice::WebGl2 => l == "webgl2"@ || l == "webgl"@ || l == "gl"@,
        LimitsChoice::Downlevel => l == "downlevel"@,
        LimitsChoice::Full => l == "default"@ || l == "full"@,
        LimitsChoice::Default => false,
        LimitsChoice::Unknown => false,
    }
}

/// Every name a limit set answers to selects it, in any mix of cases; and a
/// name selects a limit set only if it is one of that set's names.
pub proof fn lemma_limits_names(n: Seq<char>, c: LimitsChoice)
    ensures
        names_limits(lowercase(n), c) ==> limits_spec(Some(n)) == c,
        limits_spec(Some(n)) == c && c != LimitsChoice::Unknown ==> names_limits(lowercase(n), c),
{
    reveal_strlit("webgl2");
    reveal_strlit("webgl");
    reveal_strlit("gl");
    reveal_strlit("downlevel");
    reveal_strlit("default");
    reveal_strlit("full");
    assert("webgl"@.len() != "webgl2"@.len());
    assert("gl"@.len() != "webgl2"@.len());
    assert("gl"@.len() != "webgl"@.len());
    assert("downlevel"@.len() != "webgl2"@.len());
    assert("downlevel"@.len() != "webgl"@.len());
    assert("downlevel"@.len() != "gl"@.len());
    assert("default"@.len() != "webgl2"@.len());
    assert("default"@.len() != "webgl"@.len());
    assert("default"@.len() != "gl"@.len());
    assert("default"@.len() != "downlevel"@.len());
    assert("full"@.len() != "webgl2"@.len());
    assert("full"@.len() != "webgl"@.len());
    assert("full"@.len() != "gl"@.len());
    assert("full"@.len() != "downlevel"@.len());
    assert("full"@.len() != "default"@.len());
}

/// Case does not matter to either override: a name and its lower-case form
/// choose alike.
pub proof fn lemma_overrides_ignore_case(n: Seq<char>)
    ensures
        backend_spec(Some(n)) == backend_spec(Some(lowercase(n))),
        limits_spec(Some(n)) == limits_spec(Some(lowercase(n))),
{
    assert(lowercase(lowercase(n)) =~= lowercase(n));
}

/// The limits a name asks for.
pub open spec fn limits_spec(name: Option<Seq<char>>) -> LimitsChoice {
    match name {
        None => LimitsChoice::Default,
        Some(n) => {
            let l = lowercase(n);
            if l == "webgl2"@ || l == "webgl"@ || l == "gl"@ {
                LimitsChoice::WebGl2
            } else if l == "downlevel"@ {
                LimitsChoice::Downlevel
            } else if l == "default"@ || l == "full"@ {
                LimitsChoice::Full
            } else {
                LimitsChoice::Unknown
            }
        },
    }
}

/// The limits an override names, if one was given.
pub fn limits_choice(name: Option<&str>) -> (c: LimitsChoice)
    ensures
        c == limits_spec(
            match name {
                Some(n) => Some(n@),
                None => None,
            },
        ),
{
    match name {
        None => LimitsChoice::Default,
        Some(n) => {
            let l = lowercase_chars(n);
            let s = l.as_slice();
            let k = l.len();
            proof {
                assert(s@.subrange(0, k as int) =~= lowercase(n@));
            }
            if range_is(s, 0, k, "webgl2") || range_is(s, 0, k, "webgl") || range_is(s, 0, k, "gl") {
                LimitsChoice::WebGl2
            } else if range_is(s, 0, k, "downlevel") {
                LimitsChoice::Downlevel
            } else if range_is(s, 0, k, "default") || range_is(s, 0, k, "full") {
                LimitsChoice::Full
            } else {
                LimitsChoice::Unknown
            }
        },
    }
}

/// `s` without its leading `c`s.
pub open spec fn without_leading(s: Seq<char>, c: char) -> Seq<char>
    decreases s.len(),
{
    if s.len() > 0 && s[0] == c {
        without_leading(s.drop_first(), c)
    } else {
        s
    }
}

/// The value of the first `key=value` pair among `pairs[from..]` whose key is
/// `name`; pairs without `=` are skipped.
pub open spec fn find_pair(pairs: Seq<Seq<char>>, name: Seq<char>, from: int) -> Option<Seq<char>>
    decreases pairs.len() - from,
{
    if from >= pairs.len() || from < 0 {
        None
    } else {
        let p = pairs[from];
        let f = fields(p, '=', '=');
        if f.len() >= 2 && f[0] == name {
            Some(p.subrange(f[0].len() as int + 1, p.len() as int))
        } else {
            find_pair(pairs, name, from + 1)
        }
    }
}

/// A setting from a page's query string (`?backend=gl&limits=webgl2`): the
/// value of the first pair named `name`, unless that value is empty.
pub open spec fn query_spec(search: Seq<char>, name: Seq<char>) -> Option<Seq<char>> {
    match find_pair(fields(without_leading(search, '?'), '&', '&'), name, 0) {
        Some(v) => if v.len() > 0 {
            Some(v)
        } else {
            None
        },
        None => None,
    }
}

/// A setting from a query string, if present and not empty.
pub fn query_setting(search: &str, name: &str) -> (v: Option<String>)
    ensures
        match v {
            Some(s) => query_spec(search@, name@) == Some(s@),
            None => query_spec(search@, name@) is None,
        },
{
    let chars = chars_of(search);
    let s = chars.as_slice();
    let n = chars.len();
    let mut start: usize = 0;
    proof {
        assert(s@.subrange(0, n as int) =~= search@);
    }
    while start < n && s[start] == '?'
        invariant
            start <= n == s.len(),
            s@ == search@,
            without_leading(s@.subrange(start as int, n as int), '?') == without_leading(search@, '?'),
        decreases n - start,
    {
        assert(s@.subrange(start as int, n as int).drop_first() =~= s@.subrange(start + 1, n as int));
        start = start + 1;
    }
    proof {
        assert(without_leading(s@.subrange(start as int, n as int), '?') == s@.subrange(start as int, n as int));
    }
    let pairs = split_any(s, start, n, '&', '&');
    let ghost pv = fields(without_leading(search@, '?'), '&', '&');
    let mut k: usize = 0;
    while k < pairs.len()
        invariant
            k <= pairs.len(),
            n == s.len(),
            start <= n,
            ranges_of(s@, pairs@, pv, start as int, n as int),
            pv == fields(without_leading(search@, '?'), '&', '&'),
            find_pair(pv, name@, 0) == find_pair(pv, name@, k as int),
        decreases pairs.len() - k,
    {
        let (a, b) = pairs[k];
        let eq = find_char(s, a, b, '=');
        proof {
            assert(pairs@[k as int].0 <= pairs@[k as int].1);
        }
        let ghost p = pv[k as int];
        proof {
            assert(p == s@.subrange(a as int, b as int));
            lemma_fields_first(p, '=', '=', eq - a);
            assert(p.subrange(0, eq - a) =~= s@.subrange(a as int, eq as int));
            if eq < b {
                lemma_fields_two_when_sep(p, eq - a);
            } else {
                lemma_fields_one_without_sep(p);
            }
        }
        if eq < b && range_is(s, a, eq, name) {
            proof {
                let f = fields(p, '=', '=');
                assert(f[0] == name@);
                assert(f[0].len() == eq - a);
                assert(p.subrange(eq - a + 1, p.len() as int) =~= s@.subrange(eq + 1, b as int));
                assert(find_pair(pv, name@, k as int) == Some(p.subrange(f[0].len() as int + 1, p.len() as int)));
                assert(query_spec(search@, name@) == if s@.subrange(eq + 1, b as int).len() > 0 {
                    Some(s@.subrange(eq + 1, b as int))
                } else {
                    None
                });
            }
            if eq + 1 == b {
                return None;
            }
            return Some(string_of_range(s, eq + 1, b));
        }
        k = k + 1;
    }
    None
}

/// A separator in `s` makes at least two fields.
proof fn lemma_fields_two_when_sep(s: Seq<char>, k: int)
    requires
        0 <= k < s.len(),
        s[k] == '=',
    ensures
        fields(s, '=', '=').len() >= 2,
    decreases s.len(),
{
    crate::text::lemma_fields_nonempty(s.drop_last(), '=', '=');
    if k < s.len() - 1 {
        lemma_fields_two_when_sep(s.drop_last(), k);
    }
}

/// Without a separator, `s` is one field.
proof fn lemma_fields_one_without_sep(s: Seq<char>)
    requires
        forall|j: int| 0 <= j < s.len() ==> s[j] != '=',
    ensures
        fields(s, '=', '=').len() == 1,
    decreases s.len(),
{
    if s.len() > 0 {
        lemma_fields_one_without_sep(s.drop_last());
    }
}

} // verus!
