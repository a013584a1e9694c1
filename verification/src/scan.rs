//! Scanning the unit's text: character classes, small exact text helpers,
//! the definition collector and the call-site extractor.

use vstd::prelude::*;

use crate::model::{DiagKind, Diagnostic, FunctionNode, Visibility, names_unique};

verus! {

/// One extracted call site, before resolution: the index of the enclosing
/// definition, the textual callee name, the line it occurs on, and whether
/// its lexical enclosure is a closure literal rather than the body itself.
pub struct RawCall {
    pub caller: usize,
    pub name: Vec<char>,
    pub line: usize,
    pub via_closure: bool,
}

/// A character may occur in an identifier: ASCII letter, digit or underscore.
pub open spec fn spec_is_ident_char(c: char) -> bool {
    ('a' <= c && c <= 'z') || ('A' <= c && c <= 'Z') || ('0' <= c && c <= '9') || c == '_'
}

/// A character is an ASCII digit.
pub open spec fn spec_is_digit(c: char) -> bool {
    '0' <= c && c <= '9'
}

pub fn is_ident_char(c: char) -> (r: bool)
    ensures
        r == spec_is_ident_char(c),
{
    ('a' <= c && c <= 'z') || ('A' <= c && c <= 'Z') || ('0' <= c && c <= '9') || c == '_'
}

pub fn is_digit(c: char) -> (r: bool)
    ensures
        r == spec_is_digit(c),
{
    '0' <= c && c <= '9'
}

/// Exact comparison of a character vector against a string slice.
pub fn vec_eq_str(v: &Vec<char>, s: &str) -> (r: bool)
    ensures
        r == (v@ == s@),
{
    let n = s.unicode_len();
    if v.len() != n {
        return false;
    }
    let mut i: usize = 0;
    while i < n
        invariant
            v@.len() == s@.len(),
            n == s@.len(),
            i <= n,
            forall|k: int| 0 <= k < i ==> v@[k] == s@[k],
        decreases n - i,
    {
        if v[i] != s.get_char(i) {
            return false;
        }
        i = i + 1;
    }
    proof {
        assert(v@ =~= s@);
    }
    true
}

/// Exact comparison of two character vectors.
pub fn vec_eq(a: &Vec<char>, b: &Vec<char>) -> (r: bool)
    ensures
        r == (a@ == b@),
{
    if a.len() != b.len() {
        return false;
    }
    let mut i: usize = 0;
    while i < a.len()
        invariant
            a@.len() == b@.len(),
            i <= a@.len(),
            forall|k: int| 0 <= k < i ==> a@[k] == b@[k],
        decreases a@.len() - i,
    {
        if a[i] != b[i] {
            return false;
        }
        i = i + 1;
    }
    proof {
        assert(a@ =~= b@);
    }
    true
}

/// A tag contains the verification marker word.
pub fn contains_verify(t: &Vec<char>) -> (r: bool)
    ensures
        r == crate::model::is_verification_tag(t@),
{
    proof {
        reveal_strlit("verify");
    }
    if t.len() < 6 {
        proof {
            assert forall|i: int| !(0 <= i && i + 6 <= t@.len() && #[trigger] t@.subrange(i, i + 6)
                == "verify"@) by {}
        }
        return false;
    }
    let mut i: usize = 0;
    while i <= t.len() - 6
        invariant
            t@.len() >= 6,
            i <= t@.len() - 6 + 1,
            forall|k: int| 0 <= k < i ==> #[trigger] t@.subrange(k, k + 6) != "verify"@,
        decreases t@.len() - i,
    {
        if t[i] == 'v' && t[i + 1] == 'e' && t[i + 2] == 'r' && t[i + 3] == 'i' && t[i + 4] == 'f'
            && t[i + 5] == 'y' {
            proof {
                reveal_strlit("verify");
                assert(t@.subrange(i as int, i as int + 6) =~= "verify"@);
            }
            return true;
        }
        proof {
            reveal_strlit("verify");
            let k = i as int;
            if t@.subrange(k, k + 6) == "verify"@ {
                assert(t@.subrange(k, k + 6)[0] == t@[k]);
                assert(t@.subrange(k, k + 6)[1] == t@[k + 1]);
                assert(t@.subrange(k, k + 6)[2] == t@[k + 2]);
                assert(t@.subrange(k, k + 6)[3] == t@[k + 3]);
                assert(t@.subrange(k, k + 6)[4] == t@[k + 4]);
                assert(t@.subrange(k, k + 6)[5] == t@[k + 5]);
                assert(false);
            }
        }
        i = i + 1;
    }
    proof {
        assert forall|k: int| 0 <= k && k + 6 <= t@.len() implies #[trigger] t@.subrange(k, k + 6)
            != "verify"@ by {}
    }
    false
}

/// First index at or after `i` (before `to`) whose character is not a space
/// or tab.
pub open spec fn spec_skip_ws(s: Seq<char>, i: int, to: int) -> int
    decreases to - i,
{
    if i < 0 || i >= to {
        to
    } else if s[i] == ' ' || s[i] == '\t' {
        spec_skip_ws(s, i + 1, to)
    } else {
        i
    }
}

fn skip_ws(src: &Vec<char>, i: usize, to: usize) -> (r: usize)
    requires
        i <= to <= src@.len(),
    ensures
        i <= r <= to,
        r as int == spec_skip_ws(src@, i as int, to as int),
        forall|k: int| i <= k < r ==> (#[trigger] src@[k] == ' ' || src@[k] == '\t'),
        r < to ==> src@[r as int] != ' ' && src@[r as int] != '\t',
{
    let mut r = i;
    while r < to && (src[r] == ' ' || src[r] == '\t')
        invariant
            i <= r <= to,
            to <= src@.len(),
            spec_skip_ws(src@, i as int, to as int) == spec_skip_ws(src@, r as int, to as int),
            forall|k: int| i <= k < r ==> (#[trigger] src@[k] == ' ' || src@[k] == '\t'),
        decreases to - r,
    {
        r = r + 1;
    }
    r
}

/// First index at or after `i` (before `to`) whose character is not an
/// identifier character.
pub open spec fn spec_ident_end(s: Seq<char>, i: int, to: int) -> int
    decreases to - i,
{
    if i < 0 || i >= to {
        to
    } else if spec_is_ident_char(s[i]) {
        spec_ident_end(s, i + 1, to)
    } else {
        i
    }
}

fn ident_end(src: &Vec<char>, i: usize, to: usize) -> (r: usize)
    requires
        i <= to <= src@.len(),
    ensures
        i <= r <= to,
        r as int == spec_ident_end(src@, i as int, to as int),
        forall|k: int| i <= k < r ==> spec_is_ident_char(#[trigger] src@[k]),
        r < to ==> !spec_is_ident_char(src@[r as int]),
{
    let mut r = i;
    while r < to && is_ident_char(src[r])
        invariant
            i <= r <= to,
            to <= src@.len(),
            spec_ident_end(src@, i as int, to as int) == spec_ident_end(src@, r as int, to as int),
            forall|k: int| i <= k < r ==> spec_is_ident_char(#[trigger] src@[k]),
        decreases to - r,
    {
        r = r + 1;
    }
    r
}

/// The region `[i, to)` starts with the literal `lit`.
fn starts_with_at(src: &Vec<char>, i: usize, to: usize, lit: &str) -> (r: bool)
    requires
        i <= to <= src@.len(),
    ensures
        r == (i + lit@.len() <= to && src@.subrange(i as int, i as int + lit@.len() as int)
            == lit@),
{
    let m = lit.unicode_len();
    if m > to - i {
        return false;
    }
    let mut k: usize = 0;
    while k < m
        invariant
            i + m <= to <= src@.len(),
            m == lit@.len(),
            k <= m,
            forall|k2: int| 0 <= k2 < k ==> src@[i + k2] == lit@[k2],
        decreases m - k,
    {
        if src[i + k] != lit.get_char(k) {
            proof {
                assert(src@.subrange(i as int, i as int + lit@.len() as int)[k as int]
                    != lit@[k as int]);
            }
            return false;
        }
        k = k + 1;
    }
    proof {
        assert(src@.subrange(i as int, i as int + lit@.len() as int) =~= lit@);
    }
    true
}

/// Copies `src[from..to]` into a fresh vector.
fn copy_range(src: &Vec<char>, from: usize, to: usize) -> (r: Vec<char>)
    requires
        from <= to <= src@.len(),
    ensures
        r@ == src@.subrange(from as int, to as int),
{
    let mut r: Vec<char> = Vec::new();
    let mut i = from;
    while i < to
        invariant
            from <= i <= to <= src@.len(),
            r@ == src@.subrange(from as int, i as int),
        decreases to - i,
    {
        proof {
            assert(src@.subrange(from as int, i as int + 1) =~= src@.subrange(
                from as int,
                i as int,
            ).push(src@[i as int]));
        }
        r.push(src[i]);
        i = i + 1;
    }
    r
}

/// The name is a keyword that may precede `(` without being a call.
pub open spec fn spec_is_keyword(name: Seq<char>) -> bool {
    ||| name == "if"@
    ||| name == "for"@
    ||| name == "while"@
    ||| name == "match"@
    ||| name == "loop"@
    ||| name == "return"@
    ||| name == "fn"@
    ||| name == "let"@
    ||| name == "else"@
    ||| name == "in"@
    ||| name == "mut"@
    ||| name == "pub"@
    ||| name == "use"@
}

fn is_keyword(name: &Vec<char>) -> (r: bool)
    ensures
        r == spec_is_keyword(name@),
{
    vec_eq_str(name, "if") || vec_eq_str(name, "for") || vec_eq_str(name, "while") || vec_eq_str(
        name,
        "match",
    ) || vec_eq_str(name, "loop") || vec_eq_str(name, "return") || vec_eq_str(name, "fn")
        || vec_eq_str(name, "let") || vec_eq_str(name, "else") || vec_eq_str(name, "in")
        || vec_eq_str(name, "mut") || vec_eq_str(name, "pub") || vec_eq_str(name, "use")
}

/// The view of a collected definition: every field as a mathematical value.
pub struct DefV {
    pub name: Seq<char>,
    pub visibility: Visibility,
    pub start_line: int,
    pub end_line: int,
    pub annotations: Seq<Seq<char>>,
}

/// The view of an extracted call site.
pub struct CallV {
    pub caller: int,
    pub name: Seq<char>,
    pub line: int,
    pub via_closure: bool,
}

/// The view of a tag list.
pub open spec fn tags_view(ts: Seq<Vec<char>>) -> Seq<Seq<char>> {
    ts.map_values(|a: Vec<char>| a@)
}

/// The view of an index list.
pub open spec fn ints_view(xs: Seq<usize>) -> Seq<int> {
    xs.map_values(|x: usize| x as int)
}

/// The view of a collected definition node.
pub open spec fn def_view(n: FunctionNode) -> DefV {
    DefV {
        name: n.name@,
        visibility: n.visibility,
        start_line: n.start_line as int,
        end_line: n.end_line as int,
        annotations: tags_view(n.annotations@),
    }
}

/// The view of a raw call.
pub open spec fn call_view(c: RawCall) -> CallV {
    CallV { caller: c.caller as int, name: c.name@, line: c.line as int, via_closure: c.via_closure }
}

/// The view of a raw-call list.
pub open spec fn calls_view(cs: Seq<RawCall>) -> Seq<CallV> {
    cs.map_values(|c: RawCall| call_view(c))
}

/// The view of a collected definition list.
pub open spec fn defs_view(ns: Seq<FunctionNode>) -> Seq<DefV> {
    ns.map_values(|n: FunctionNode| def_view(n))
}

/// End of the line that starts at `ls`: the next newline, or the end of the
/// text.
pub open spec fn spec_line_end(s: Seq<char>, ls: int) -> int
    decreases s.len() - ls,
{
    if ls < 0 || ls >= s.len() {
        s.len() as int
    } else if s[ls] == '\n' {
        ls
    } else {
        spec_line_end(s, ls + 1)
    }
}

/// First `{` at or after `i` (before `to`), or `to`.
pub open spec fn spec_find_brace(s: Seq<char>, i: int, to: int) -> int
    decreases to - i,
{
    if i < 0 || i >= to {
        to
    } else if s[i] == '{' {
        i
    } else {
        spec_find_brace(s, i + 1, to)
    }
}

/// Some tag in the list is a verification tag.
pub fn has_verification_tag(anns: &Vec<Vec<char>>) -> (r: bool)
    ensures
        r == exists|t: int|
            0 <= t < anns@.len() && crate::model::is_verification_tag(#[trigger] anns@[t]@),
{
    let mut t: usize = 0;
    while t < anns.len()
        invariant
            t <= anns@.len(),
            forall|k: int|
                0 <= k < t ==> !crate::model::is_verification_tag(#[trigger] anns@[k]@),
        decreases anns@.len() - t,
    {
        if contains_verify(&anns[t]) {
            return true;
        }
        t = t + 1;
    }
    false
}

/// The walker's full state while it crosses a line region.
pub struct WalkSt {
    pub i: int,
    pub paren: int,
    pub pipes: bool,
    pub closure: bool,
    pub cl_depth: int,
    pub in_str: bool,
    pub depth: int,
    pub brace_seen: bool,
    pub calls: Seq<CallV>,
}

/// What a finished line walk leaves behind.
pub struct WalkOut {
    pub depth: int,
    pub brace_seen: bool,
    pub calls: Seq<CallV>,
}

/// The walker's starting state for a line region.
pub open spec fn walk_init(i: int, depth: int, calls: Seq<CallV>) -> WalkSt {
    WalkSt {
        i,
        paren: 0,
        pipes: false,
        closure: false,
        cl_depth: 0,
        in_str: false,
        depth,
        brace_seen: false,
        calls,
    }
}

/// The line walk, character by character: string literals swallow
/// everything up to their closing quote, a line comment ends the walk,
/// braces and parentheses are counted, a completed `|…|` pair opens a
/// closure that lasts while the parenthesis depth stays at or above its
/// opening depth, and an identifier not starting with a digit and not a
/// keyword, followed by `(` or `!(`, becomes a call attributed to `caller`
/// with the current closure flag.
pub open spec fn spec_walk(
    s: Seq<char>,
    to: int,
    line: int,
    caller: Option<int>,
    st: WalkSt,
) -> WalkOut
    decreases to - st.i,
{
    if st.i < 0 || st.i >= to {
        WalkOut { depth: st.depth, brace_seen: st.brace_seen, calls: st.calls }
    } else {
        let c = s[st.i];
        if st.in_str {
            if c == '\\' {
                let i1 = st.i + 1;
                let i2 = if i1 < to {
                    i1 + 1
                } else {
                    i1
                };
                spec_walk(s, to, line, caller, WalkSt { i: i2, ..st })
            } else {
                spec_walk(
                    s,
                    to,
                    line,
                    caller,
                    WalkSt { i: st.i + 1, in_str: !(c == '"') && st.in_str, ..st },
                )
            }
        } else if c == '"' {
            spec_walk(s, to, line, caller, WalkSt { i: st.i + 1, in_str: true, ..st })
        } else if c == '/' && st.i + 1 < to && s[st.i + 1] == '/' {
            WalkOut { depth: st.depth, brace_seen: st.brace_seen, calls: st.calls }
        } else if c == '{' {
            let d = if st.depth < usize::MAX as int {
                st.depth + 1
            } else {
                st.depth
            };
            spec_walk(s, to, line, caller, WalkSt { i: st.i + 1, depth: d, brace_seen: true, ..st })
        } else if c == '}' {
            let d = if st.depth > 0 {
                st.depth - 1
            } else {
                st.depth
            };
            spec_walk(s, to, line, caller, WalkSt { i: st.i + 1, depth: d, ..st })
        } else if c == '(' {
            let p = if st.paren < usize::MAX as int {
                st.paren + 1
            } else {
                st.paren
            };
            spec_walk(s, to, line, caller, WalkSt { i: st.i + 1, paren: p, ..st })
        } else if c == ')' {
            let p = if st.paren > 0 {
                st.paren - 1
            } else {
                st.paren
            };
            let cl = if st.closure && p < st.cl_depth {
                false
            } else {
                st.closure
            };
            spec_walk(s, to, line, caller, WalkSt { i: st.i + 1, paren: p, closure: cl, ..st })
        } else if c == '|' {
            if st.pipes {
                spec_walk(
                    s,
                    to,
                    line,
                    caller,
                    WalkSt { i: st.i + 1, pipes: false, closure: true, cl_depth: st.paren, ..st },
                )
            } else {
                spec_walk(s, to, line, caller, WalkSt { i: st.i + 1, pipes: true, ..st })
            }
        } else if spec_is_ident_char(c) {
            let j0 = spec_ident_end(s, st.i, to);
            let j = if st.i < j0 && j0 <= to {
                j0
            } else {
                st.i + 1
            };
            let k = if j < to && s[j] == '!' {
                j + 1
            } else {
                j
            };
            let name = s.subrange(st.i, j);
            let calls2 = if k < to && s[k] == '(' && !spec_is_digit(c) {
                match caller {
                    Some(cid) => if !spec_is_keyword(name) {
                        st.calls.push(
                            CallV { caller: cid, name, line, via_closure: st.closure },
                        )
                    } else {
                        st.calls
                    },
                    None => st.calls,
                }
            } else {
                st.calls
            };
            spec_walk(s, to, line, caller, WalkSt { i: j, calls: calls2, ..st })
        } else {
            spec_walk(s, to, line, caller, WalkSt { i: st.i + 1, ..st })
        }
    }
}

/// The view of an optional caller index.
pub open spec fn opt_view(c: Option<usize>) -> Option<int> {
    match c {
        Some(v) => Some(v as int),
        None => None,
    }
}

/// Walks one line region: maintains the brace depth, tracks closure
/// literals and string literals, stops at a line comment, and extracts the
/// named direct calls (an identifier not starting with a digit, not a
/// keyword, followed by `(` or `!(`), attributed to `caller`. Calls whose
/// lexical enclosure is a closure literal are flagged `via_closure`. Returns
/// whether an opening brace was seen. The outcome is exactly `spec_walk`
/// from the starting state.
fn walk_line(
    src: &Vec<char>,
    from: usize,
    to: usize,
    line_no: usize,
    caller: Option<usize>,
    Ghost(nlimit): Ghost<int>,
    depth: &mut usize,
    calls: &mut Vec<RawCall>,
) -> (brace_seen: bool)
    requires
        from <= to <= src@.len(),
        caller matches Some(c) ==> (c as int) < nlimit,
        forall|k: int| 0 <= k < old(calls)@.len() ==> ((#[trigger] old(calls)@[k].caller) as int) < nlimit,
    ensures
        final(calls)@.len() >= old(calls)@.len(),
        forall|k: int|
            0 <= k < final(calls)@.len() ==> ((#[trigger] final(calls)@[k].caller) as int) < nlimit,
        ({
            let out = spec_walk(
                src@,
                to as int,
                line_no as int,
                opt_view(caller),
                walk_init(
                    from as int,
                    (*old(depth)) as int,
                    calls_view(old(calls)@),
                ),
            );
            &&& calls_view(final(calls)@) == out.calls
            &&& ((*final(depth)) as int) == out.depth
            &&& brace_seen == out.brace_seen
        }),
{
    let ghost st0 = walk_init(
        from as int,
        (*depth) as int,
        calls_view(calls@),
    );
    let ghost cv = opt_view(caller);
    let mut i = from;
    let mut paren: usize = 0;
    let mut pipes = false;
    let mut closure = false;
    let mut cl_depth: usize = 0;
    let mut in_str = false;
    let mut brace_seen = false;
    while i < to
        invariant
            from <= to <= src@.len(),
            i <= to + 1,
            caller matches Some(c) ==> (c as int) < nlimit,
            cv == opt_view(caller),
            st0 == walk_init(from as int, (*old(depth)) as int, calls_view(old(calls)@)),
            calls@.len() >= old(calls)@.len(),
            forall|k: int|
                0 <= k < calls@.len() ==> ((#[trigger] calls@[k].caller) as int) < nlimit,
            spec_walk(src@, to as int, line_no as int, cv, st0) == spec_walk(
                src@,
                to as int,
                line_no as int,
                cv,
                WalkSt {
                    i: i as int,
                    paren: paren as int,
                    pipes,
                    closure,
                    cl_depth: cl_depth as int,
                    in_str,
                    depth: (*depth) as int,
                    brace_seen,
                    calls: calls_view(calls@),
                },
            ),
        decreases to - i,
    {
        let ghost stb = WalkSt {
            i: i as int,
            paren: paren as int,
            pipes,
            closure,
            cl_depth: cl_depth as int,
            in_str,
            depth: (*depth) as int,
            brace_seen,
            calls: calls_view(calls@),
        };
        let c = src[i];
        if in_str {
            if c == '\\' {
                i = i + 1;
                if i < to {
                    i = i + 1;
                }
            } else {
                if c == '"' {
                    in_str = false;
                }
                i = i + 1;
            }
        } else if c == '"' {
            in_str = true;
            i = i + 1;
        } else if c == '/' && i + 1 < to && src[i + 1] == '/' {
            // line comment: nothing further counts
            proof {
                assert(st0 == walk_init(
                    from as int,
                    (*old(depth)) as int,
                    calls_view(old(calls)@),
                ));
                assert(spec_walk(src@, to as int, line_no as int, cv, stb) == WalkOut {
                    depth: (*depth) as int,
                    brace_seen,
                    calls: calls_view(calls@),
                });
                assert(spec_walk(src@, to as int, line_no as int, cv, st0) == WalkOut {
                    depth: (*depth) as int,
                    brace_seen,
                    calls: calls_view(calls@),
                });
                assert(spec_walk(src@, to as int, line_no as int, opt_view(caller), st0)
                    == WalkOut { depth: (*depth) as int, brace_seen, calls: calls_view(calls@) });
            }
            return brace_seen;
        } else if c == '{' {
            if *depth < usize::MAX {
                *depth = *depth + 1;
            }
            brace_seen = true;
            i = i + 1;
        } else if c == '}' {
            if *depth > 0 {
                *depth = *depth - 1;
            }
            i = i + 1;
        } else if c == '(' {
            if paren < usize::MAX {
                paren = paren + 1;
            }
            i = i + 1;
        } else if c == ')' {
            if paren > 0 {
                paren = paren - 1;
            }
            if closure && paren < cl_depth {
                closure = false;
            }
            i = i + 1;
        } else if c == '|' {
            if pipes {
                pipes = false;
                closure = true;
                cl_depth = paren;
            } else {
                pipes = true;
            }
            i = i + 1;
        } else if is_ident_char(c) {
            let start = i;
            let j = ident_end(src, i, to);
            let mut k = j;
            if k < to && src[k] == '!' {
                k = k + 1;
            }
            if k < to && src[k] == '(' && !is_digit(c) {
                match caller {
                    Some(cidx) => {
                        let name = copy_range(src, start, j);
                        if !is_keyword(&name) {
                            let ghost before = calls@;
                            calls.push(
                                RawCall { caller: cidx, name, line: line_no, via_closure: closure },
                            );
                            proof {
                                assert(calls_view(calls@)
                                    =~= calls_view(before).push(
                                    call_view(calls@[calls@.len() - 1]),
                                ));
                            }
                        }
                    },
                    None => {},
                }
            }
            if j > i {
                i = j;
            } else {
                i = i + 1;
            }
        } else {
            i = i + 1;
        }
        proof {
            let sta = WalkSt {
                i: i as int,
                paren: paren as int,
                pipes,
                closure,
                cl_depth: cl_depth as int,
                in_str,
                depth: (*depth) as int,
                brace_seen,
                calls: calls_view(calls@),
            };
            assert(spec_walk(src@, to as int, line_no as int, cv, stb) == spec_walk(
                src@,
                to as int,
                line_no as int,
                cv,
                sta,
            ));
        }
    }
    proof {
        assert(spec_walk(src@, to as int, line_no as int, cv, WalkSt {
            i: i as int,
            paren: paren as int,
            pipes,
            closure,
            cl_depth: cl_depth as int,
            in_str,
            depth: (*depth) as int,
            brace_seen,
            calls: calls_view(calls@),
        }) == WalkOut {
            depth: (*depth) as int,
            brace_seen,
            calls: calls_view(calls@),
        });
    }
    brace_seen
}

/// The collector's full state between lines: position, counters, what has
/// been collected, the pending annotation lines, and the stack of open
/// definitions (index, entry depth, whether its body brace was seen).
pub struct ScanSt {
    pub ls: int,
    pub line_no: int,
    pub defs: Seq<DefV>,
    pub calls: Seq<CallV>,
    pub diags: Seq<Diagnostic>,
    pub pending: Seq<Seq<char>>,
    pub st_idx: Seq<int>,
    pub st_depth: Seq<int>,
    pub st_open: Seq<bool>,
    pub depth: int,
}

/// The state the collector starts from.
pub open spec fn init_scan_state() -> ScanSt {
    ScanSt {
        ls: 0,
        line_no: 1,
        defs: Seq::empty(),
        calls: Seq::empty(),
        diags: Seq::empty(),
        pending: Seq::empty(),
        st_idx: Seq::empty(),
        st_depth: Seq::empty(),
        st_open: Seq::empty(),
        depth: 0,
    }
}

/// The state view of the collector's working data.
pub open spec fn state_view(
    ls: int,
    line_no: int,
    nodes: Seq<FunctionNode>,
    calls: Seq<RawCall>,
    diags: Seq<Diagnostic>,
    pending: Seq<Vec<char>>,
    st_idx: Seq<usize>,
    st_depth: Seq<usize>,
    st_open: Seq<bool>,
    depth: int,
) -> ScanSt {
    ScanSt {
        ls,
        line_no,
        defs: defs_view(nodes),
        calls: calls_view(calls),
        diags,
        pending: tags_view(pending),
        st_idx: ints_view(st_idx),
        st_depth: ints_view(st_depth),
        st_open,
        depth,
    }
}

/// Closes every stacked definition whose body ended: while the innermost
/// open definition's brace depth has been reached again, record its end
/// line and pop it.
pub open spec fn spec_pops(st: ScanSt) -> ScanSt
    decreases st.st_idx.len(),
{
    if st.st_idx.len() > 0 && st.st_open.len() == st.st_idx.len() && st.st_depth.len()
        == st.st_idx.len() && st.st_open.last() && st.depth <= st.st_depth.last() {
        let idx = st.st_idx.last();
        let defs2 = if 0 <= idx < st.defs.len() {
            st.defs.update(idx, DefV { end_line: st.line_no, ..st.defs[idx] })
        } else {
            st.defs
        };
        spec_pops(
            ScanSt {
                defs: defs2,
                st_idx: st.st_idx.drop_last(),
                st_depth: st.st_depth.drop_last(),
                st_open: st.st_open.drop_last(),
                ..st
            },
        )
    } else {
        st
    }
}

/// At the end of the unit, every still-open definition closes on the last
/// line counted.
pub open spec fn spec_close_all(defs: Seq<DefV>, st_idx: Seq<int>, line_no: int) -> Seq<DefV>
    decreases st_idx.len(),
{
    if st_idx.len() > 0 {
        let idx = st_idx.last();
        let defs2 = if 0 <= idx < defs.len() {
            defs.update(idx, DefV { end_line: line_no, ..defs[idx] })
        } else {
            defs
        };
        spec_close_all(defs2, st_idx.drop_last(), line_no)
    } else {
        defs
    }
}

/// One definition-header line: the identifier after `fn ` (or `pub fn `)
/// up to `(` names a new definition, qualified by the enclosing one;
/// a malformed signature or a colliding id yields a diagnostic instead;
/// the pending annotation lines attach to the new definition; the rest of
/// the line from its opening brace is walked for depth and calls.
pub open spec fn spec_header_line(
    src: Seq<char>,
    st: ScanSt,
    le: int,
    t: int,
    is_pub: bool,
    caller: Option<int>,
) -> ScanSt {
    let name_start = if is_pub {
        t + 7
    } else {
        t + 3
    };
    let ns = spec_skip_ws(src, name_start, le);
    let ne = spec_ident_end(src, ns, le);
    let ok = ne > ns && ne < le && src[ne] == '(' && !spec_is_digit(src[ns]);
    let sth = if !ok {
        ScanSt {
            diags: st.diags.push(
                Diagnostic { kind: DiagKind::MalformedDefinition, line: st.line_no as usize },
            ),
            pending: Seq::empty(),
            ..st
        }
    } else {
        let raw = src.subrange(ns, ne);
        let name = match caller {
            Some(ci) => if 0 <= ci < st.defs.len() {
                crate::resolve::spec_qualified(st.defs[ci].name, raw)
            } else {
                raw
            },
            None => raw,
        };
        let dup = exists|d: int| 0 <= d < st.defs.len() && (#[trigger] st.defs[d]).name == name;
        if dup {
            ScanSt {
                diags: st.diags.push(
                    Diagnostic { kind: DiagKind::MalformedDefinition, line: st.line_no as usize },
                ),
                pending: Seq::empty(),
                ..st
            }
        } else {
            let vis = if is_pub {
                Visibility::Public
            } else {
                Visibility::Private
            };
            ScanSt {
                defs: st.defs.push(
                    DefV {
                        name,
                        visibility: vis,
                        start_line: st.line_no,
                        end_line: st.line_no,
                        annotations: st.pending,
                    },
                ),
                pending: Seq::empty(),
                st_idx: st.st_idx.push(st.defs.len() as int),
                st_depth: st.st_depth.push(st.depth),
                st_open: st.st_open.push(false),
                ..st
            }
        }
    };
    let bp = spec_find_brace(src, ne, le);
    if bp < le {
        let caller2 = if sth.st_idx.len() > 0 {
            Some(sth.st_idx.last())
        } else {
            None
        };
        let w = spec_walk(src, le, st.line_no, caller2, walk_init(bp, sth.depth, sth.calls));
        let sto = if w.brace_seen && sth.st_open.len() > 0 {
            sth.st_open.update(sth.st_open.len() - 1, true)
        } else {
            sth.st_open
        };
        ScanSt { depth: w.depth, calls: w.calls, st_open: sto, ..sth }
    } else {
        sth
    }
}

/// An ordinary body line: pending annotations lapse, and the line is walked
/// for braces and call sites attributed to the innermost open definition.
pub open spec fn spec_other_line(src: Seq<char>, st: ScanSt, le: int, caller: Option<int>) -> ScanSt {
    let w = spec_walk(src, le, st.line_no, caller, walk_init(st.ls, st.depth, st.calls));
    let sto = if w.brace_seen && st.st_open.len() > 0 {
        st.st_open.update(st.st_open.len() - 1, true)
    } else {
        st.st_open
    };
    ScanSt { pending: Seq::empty(), depth: w.depth, calls: w.calls, st_open: sto, ..st }
}

/// One line of the unit: classified as blank, comment, annotation,
/// definition header or ordinary body line, then any definitions whose
/// bodies ended are closed and the position advances past the newline.
pub open spec fn spec_scan_line(src: Seq<char>, st: ScanSt) -> ScanSt {
    let le = spec_line_end(src, st.ls);
    let t = spec_skip_ws(src, st.ls, le);
    let caller = if st.st_idx.len() > 0 {
        Some(st.st_idx.last())
    } else {
        None
    };
    let st1 = if t >= le {
        st
    } else if t + 1 < le && src[t] == '/' && src[t + 1] == '/' {
        st
    } else if t + 1 < le && src[t] == '#' && src[t + 1] == '[' {
        let e = if le > t + 2 && src[le - 1] == ']' {
            le - 1
        } else {
            le
        };
        let tag = if t + 2 <= e {
            src.subrange(t + 2, e)
        } else {
            Seq::empty()
        };
        ScanSt { pending: st.pending.push(tag), ..st }
    } else {
        let is_pub = t + "pub fn "@.len() <= le && src.subrange(t, t + "pub fn "@.len() as int)
            == "pub fn "@;
        let is_fn = t + "fn "@.len() <= le && src.subrange(t, t + "fn "@.len() as int) == "fn "@;
        if is_pub || is_fn {
            spec_header_line(src, st, le, t, is_pub, caller)
        } else {
            spec_other_line(src, st, le, caller)
        }
    };
    let st2 = spec_pops(ScanSt { ..st1 });
    let lsa = if le < src.len() {
        le + 1
    } else {
        src.len() as int
    };
    let ls2 = if lsa > st.ls {
        lsa
    } else {
        st.ls + 1
    };
    ScanSt {
        ls: ls2,
        line_no: if st2.line_no < usize::MAX as int {
            st2.line_no + 1
        } else {
            st2.line_no
        },
        ..st2
    }
}

/// The whole scan: every line in turn, then the end-of-unit close.
pub open spec fn spec_scan(src: Seq<char>, st: ScanSt) -> ScanSt
    decreases src.len() - st.ls,
{
    if st.ls < 0 || st.ls >= src.len() {
        ScanSt {
            defs: spec_close_all(st.defs, st.st_idx, st.line_no),
            st_idx: Seq::empty(),
            st_depth: Seq::empty(),
            st_open: Seq::empty(),
            ..st
        }
    } else {
        spec_scan(src, spec_scan_line(src, st))
    }
}

/// What scanning a unit's text yields: the collected definitions, the
/// extracted raw calls, and the malformed-definition diagnostics, all as a
/// function of the text alone.
pub open spec fn scan_spec(src: Seq<char>) -> ScanSt {
    spec_scan(src, init_scan_state())
}

/// The definition collector and call-site extractor in one pass over the
/// unit's lines.
///
/// The grammar is line-based: a definition header is a line whose trimmed
/// text starts with `fn ` or `pub fn `, its id the identifier that follows
/// (qualified by the enclosing definition's id for a nested definition); the
/// attribute lines immediately above it are its annotation tags, kept
/// verbatim without the `#[` `]` frame. A header without a well-formed
/// `name(` signature, or one whose id collides with an already collected
/// definition, is skipped and reported as a malformed definition. A
/// definition's body runs to the line on which its braces close.
#[verifier::rlimit(100)]
pub fn scan_unit(src: &Vec<char>) -> (r: (Vec<FunctionNode>, Vec<RawCall>, Vec<Diagnostic>))
    ensures
        names_unique(r.0@),
        forall|k: int| 0 <= k < r.1@.len() ==> ((#[trigger] r.1@[k].caller) as int) < r.0@.len(),
        defs_view(r.0@) == scan_spec(src@).defs,
        calls_view(r.1@) == scan_spec(src@).calls,
        r.2@ == scan_spec(src@).diags,
{
    let n = src.len();
    let mut nodes: Vec<FunctionNode> = Vec::new();
    let mut calls: Vec<RawCall> = Vec::new();
    let mut diags: Vec<Diagnostic> = Vec::new();
    let mut pending: Vec<Vec<char>> = Vec::new();
    let mut st_idx: Vec<usize> = Vec::new();
    let mut st_depth: Vec<usize> = Vec::new();
    let mut st_open: Vec<bool> = Vec::new();
    let mut depth: usize = 0;
    let mut ls: usize = 0;
    let mut line_no: usize = 1;
    proof {
        assert(state_view(
            ls as int,
            line_no as int,
            nodes@,
            calls@,
            diags@,
            pending@,
            st_idx@,
            st_depth@,
            st_open@,
            depth as int,
        ) == init_scan_state()) by {
            assert(defs_view(nodes@) =~= Seq::<DefV>::empty());
            assert(calls_view(calls@) =~= Seq::<CallV>::empty());
            assert(tags_view(pending@) =~= Seq::<Seq<char>>::empty());
            assert(ints_view(st_idx@) =~= Seq::<int>::empty());
            assert(ints_view(st_depth@) =~= Seq::<int>::empty());
        }
    }
    while ls < n
        invariant
            n == src@.len(),
            ls <= n,
            names_unique(nodes@),
            forall|k: int|
                0 <= k < calls@.len() ==> ((#[trigger] calls@[k].caller) as int) < nodes@.len(),
            st_idx@.len() == st_depth@.len(),
            st_idx@.len() == st_open@.len(),
            forall|s: int| 0 <= s < st_idx@.len() ==> ((#[trigger] st_idx@[s]) as int) < nodes@.len(),
            spec_scan(
                src@,
                state_view(
                    ls as int,
                    line_no as int,
                    nodes@,
                    calls@,
                    diags@,
                    pending@,
                    st_idx@,
                    st_depth@,
                    st_open@,
                    depth as int,
                ),
            ) == spec_scan(src@, init_scan_state()),
        decreases n - ls,
    {
        let ghost sb = state_view(
            ls as int,
            line_no as int,
            nodes@,
            calls@,
            diags@,
            pending@,
            st_idx@,
            st_depth@,
            st_open@,
            depth as int,
        );
        // find the end of this line
        let mut le = ls;
        while le < n && src[le] != '\n'
            invariant
                ls <= le <= n,
                n == src@.len(),
                spec_line_end(src@, ls as int) == spec_line_end(src@, le as int),
            decreases n - le,
        {
            le = le + 1;
        }
        proof {
            assert(le as int == spec_line_end(src@, ls as int));
        }
        let t = skip_ws(src, ls, le);
        let ghost spec_caller: Option<int> = if sb.st_idx.len() > 0 {
            Some(sb.st_idx.last())
        } else {
            None
        };
        let caller: Option<usize> = if st_idx.len() > 0 {
            Some(st_idx[st_idx.len() - 1])
        } else {
            None
        };
        proof {
            assert(opt_view(caller) == spec_caller);
        }
        if t >= le {
            // blank line: keep pending annotations
            proof {
                assert(state_view(
                ls as int,
                line_no as int,
                nodes@,
                calls@,
                diags@,
                pending@,
                st_idx@,
                st_depth@,
                st_open@,
                depth as int,
            ) == sb);
            }
        } else if t + 1 < le && src[t] == '/' && src[t + 1] == '/' {
            // comment line: keep pending annotations
            proof {
                assert(state_view(
                ls as int,
                line_no as int,
                nodes@,
                calls@,
                diags@,
                pending@,
                st_idx@,
                st_depth@,
                st_open@,
                depth as int,
            ) == sb);
            }
        } else if t + 1 < le && src[t] == '#' && src[t + 1] == '[' {
            // annotation line: keep the tag text without its frame
            let e = if le > t + 2 && src[le - 1] == ']' {
                le - 1
            } else {
                le
            };
            let ghost pend0 = pending@;
            if t + 2 <= e {
                pending.push(copy_range(src, t + 2, e));
            } else {
                pending.push(Vec::new());
            }
            proof {
                let tag = if t + 2 <= e {
                    src@.subrange(t as int + 2, e as int)
                } else {
                    Seq::<char>::empty()
                };
                assert(pending@[pending@.len() - 1]@ =~= tag);
                assert(tags_view(pending@) =~= tags_view(pend0).push(tag));
                assert(state_view(
                ls as int,
                line_no as int,
                nodes@,
                calls@,
                diags@,
                pending@,
                st_idx@,
                st_depth@,
                st_open@,
                depth as int,
            ) == ScanSt { pending: sb.pending.push(tag), ..sb });
            }
        } else {
            let is_pub = starts_with_at(src, t, le, "pub fn ");
            let is_fn = starts_with_at(src, t, le, "fn ");
            if is_pub || is_fn {
                proof {
                    reveal_strlit("pub fn ");
                    reveal_strlit("fn ");
                }
                let name_start = if is_pub {
                    t + 7
                } else {
                    t + 3
                };
                let ns = skip_ws(src, name_start, le);
                let ne = ident_end(src, ns, le);
                let anns = pending;
                pending = Vec::new();
                proof {
                    assert(tags_view(pending@) =~= Seq::<Seq<char>>::empty());
                    assert(tags_view(anns@) == sb.pending);
                }
                let mut ok = ne > ns && ne < le;
                if ok {
                    ok = src[ne] == '(' && !is_digit(src[ns]);
                }
                if !ok {
                    // malformed definition header: skip it, keep scanning
                    diags.push(
                        Diagnostic { kind: DiagKind::MalformedDefinition, line: line_no },
                    );
                } else {
                    let raw = copy_range(src, ns, ne);
                    let name: Vec<char> = match caller {
                        Some(cidx) => crate::resolve::make_qualified(&nodes[cidx].name, &raw),
                        None => raw,
                    };
                    proof {
                        match spec_caller {
                            Some(ci) => {
                                assert(0 <= ci < sb.defs.len());
                                assert(sb.defs[ci].name == nodes@[ci].name@);
                            },
                            None => {},
                        }
                    }
                    // a colliding id would break the node mapping: skip it
                    let mut dup = false;
                    let mut d: usize = 0;
                    while d < nodes.len() && !dup
                        invariant
                            d <= nodes@.len(),
                            dup ==> exists|d2: int|
                                0 <= d2 < nodes@.len() && (#[trigger] nodes@[d2].name@) == name@,
                            !dup ==> forall|d2: int|
                                0 <= d2 < d ==> (#[trigger] nodes@[d2].name@) != name@,
                        decreases nodes@.len() - d + if dup {
                            0int
                        } else {
                            1int
                        },
                    {
                        if vec_eq(&nodes[d].name, &name) {
                            dup = true;
                        } else {
                            d = d + 1;
                        }
                    }
                    proof {
                        assert(dup == (exists|d2: int|
                            0 <= d2 < sb.defs.len() && (#[trigger] sb.defs[d2]).name == name@)) by {
                            if dup {
                                let d2 = choose|d2: int|
                                    0 <= d2 < nodes@.len() && (#[trigger] nodes@[d2].name@)
                                        == name@;
                                assert(sb.defs[d2].name == name@);
                            }
                            if exists|d2: int|
                                0 <= d2 < sb.defs.len() && (#[trigger] sb.defs[d2]).name
                                    == name@ {
                                let d2 = choose|d2: int|
                                    0 <= d2 < sb.defs.len() && (#[trigger] sb.defs[d2]).name
                                        == name@;
                                assert(nodes@[d2].name@ == name@);
                            }
                        }
                    }
                    if dup {
                        diags.push(
                            Diagnostic { kind: DiagKind::MalformedDefinition, line: line_no },
                        );
                    } else {
                        let idx = nodes.len();
                        let vis = if is_pub {
                            Visibility::Public
                        } else {
                            Visibility::Private
                        };
                        let ghost nodes0 = nodes@;
                        let ghost sti0 = st_idx@;
                        let ghost std0 = st_depth@;
                        nodes.push(
                            FunctionNode {
                                name,
                                visibility: vis,
                                start_line: line_no,
                                end_line: line_no,
                                annotations: anns,
                            },
                        );
                        st_idx.push(idx);
                        st_depth.push(depth);
                        st_open.push(false);
                        proof {
                            assert(defs_view(nodes@) =~= defs_view(nodes0).push(
                                def_view(nodes@[nodes@.len() - 1]),
                            ));
                            assert(ints_view(st_idx@) =~= ints_view(sti0).push(idx as int));
                            assert(ints_view(st_depth@) =~= ints_view(std0).push(depth as int));
                        }
                    }
                }
                // walk the tail of the header line from its opening brace
                let mut bp = ne;
                while bp < le && src[bp] != '{'
                    invariant
                        ne <= bp <= le,
                        le <= n == src@.len(),
                        spec_find_brace(src@, ne as int, le as int) == spec_find_brace(
                            src@,
                            bp as int,
                            le as int,
                        ),
                    decreases le - bp,
                {
                    bp = bp + 1;
                }
                proof {
                    assert(bp as int == spec_find_brace(src@, ne as int, le as int));
                }
                if bp < le {
                    let caller2: Option<usize> = if st_idx.len() > 0 {
                        Some(st_idx[st_idx.len() - 1])
                    } else {
                        None
                    };
                    proof {
                        if st_idx@.len() > 0 {
                            assert(ints_view(st_idx@).last() == st_idx@[st_idx@.len() - 1] as int);
                        }
                        assert(opt_view(caller2) == (if ints_view(st_idx@).len() > 0 {
                            Some(ints_view(st_idx@).last())
                        } else {
                            None::<int>
                        }));
                    }
                    let bs = walk_line(
                        src,
                        bp,
                        le,
                        line_no,
                        caller2,
                        Ghost(nodes@.len() as int),
                        &mut depth,
                        &mut calls,
                    );
                    if bs && st_open.len() > 0 {
                        let top = st_open.len() - 1;
                        st_open.set(top, true);
                    }
                }
                proof {
                    assert(state_view(
                ls as int,
                line_no as int,
                nodes@,
                calls@,
                diags@,
                pending@,
                st_idx@,
                st_depth@,
                st_open@,
                depth as int,
            ) == spec_header_line(
                        src@,
                        sb,
                        le as int,
                        t as int,
                        is_pub,
                        spec_caller,
                    ));
                }
            } else {
                // an ordinary body line: annotations no longer pend
                pending = Vec::new();
                proof {
                    assert(tags_view(pending@) =~= Seq::<Seq<char>>::empty());
                }
                let bs = walk_line(
                    src,
                    ls,
                    le,
                    line_no,
                    caller,
                    Ghost(nodes@.len() as int),
                    &mut depth,
                    &mut calls,
                );
                if bs && st_open.len() > 0 {
                    let top = st_open.len() - 1;
                    st_open.set(top, true);
                }
                proof {
                    assert(state_view(
                ls as int,
                line_no as int,
                nodes@,
                calls@,
                diags@,
                pending@,
                st_idx@,
                st_depth@,
                st_open@,
                depth as int,
            ) == spec_other_line(src@, sb, le as int, spec_caller));
                }
            }
        }
        let ghost s1 = state_view(
            ls as int,
            line_no as int,
            nodes@,
            calls@,
            diags@,
            pending@,
            st_idx@,
            st_depth@,
            st_open@,
            depth as int,
        );
        // close every definition whose body ended on this line
        while st_idx.len() > 0 && st_open[st_open.len() - 1] && depth <= st_depth[st_depth.len()
            - 1]
            invariant
                st_idx@.len() == st_depth@.len(),
                st_idx@.len() == st_open@.len(),
                names_unique(nodes@),
                forall|s: int|
                    0 <= s < st_idx@.len() ==> ((#[trigger] st_idx@[s]) as int) < nodes@.len(),
                forall|k: int|
                    0 <= k < calls@.len() ==> ((#[trigger] calls@[k].caller) as int)
                        < nodes@.len(),
                n == src@.len(),
                spec_pops(
                    state_view(
                        ls as int,
                        line_no as int,
                        nodes@,
                        calls@,
                        diags@,
                        pending@,
                        st_idx@,
                        st_depth@,
                        st_open@,
                        depth as int,
                    ),
                ) == spec_pops(s1),
            decreases st_idx@.len(),
        {
            let ghost before = state_view(
                ls as int,
                line_no as int,
                nodes@,
                calls@,
                diags@,
                pending@,
                st_idx@,
                st_depth@,
                st_open@,
                depth as int,
            );
            let p = st_idx.len() - 1;
            let idx = st_idx[p];
            close_node(&mut nodes, idx, line_no);
            let _ = st_idx.pop();
            let _ = st_depth.pop();
            let _ = st_open.pop();
            proof {
                let after = state_view(
                    ls as int,
                    line_no as int,
                    nodes@,
                    calls@,
                    diags@,
                    pending@,
                    st_idx@,
                    st_depth@,
                    st_open@,
                    depth as int,
                );
                assert(before.st_idx.last() == idx as int);
                assert(ints_view(st_idx@) =~= before.st_idx.drop_last());
                assert(ints_view(st_depth@) =~= before.st_depth.drop_last());
                assert(st_open@ =~= before.st_open.drop_last());
                assert(after.defs =~= before.defs.update(
                    idx as int,
                    DefV { end_line: line_no as int, ..before.defs[idx as int] },
                ));
                assert(spec_pops(before) == spec_pops(after));
            }
        }
        // advance past the newline
        ls = if le < n {
            le + 1
        } else {
            n
        };
        if line_no < usize::MAX {
            line_no = line_no + 1;
        }
        proof {
            let sp = spec_pops(s1);
            let sa = state_view(
                ls as int,
                line_no as int,
                nodes@,
                calls@,
                diags@,
                pending@,
                st_idx@,
                st_depth@,
                st_open@,
                depth as int,
            );
            assert(sa == ScanSt { ls: sa.ls, line_no: sa.line_no, ..sp });
            assert(spec_scan_line(src@, sb) == sa);
            assert(spec_scan(src@, sb) == spec_scan(src@, sa));
        }
    }
    // the unit ended: close what is still open
    let ghost sx = state_view(
        ls as int,
        line_no as int,
        nodes@,
        calls@,
        diags@,
        pending@,
        st_idx@,
        st_depth@,
        st_open@,
        depth as int,
    );
    while st_idx.len() > 0
        invariant
            st_idx@.len() == st_depth@.len(),
            st_idx@.len() == st_open@.len(),
            names_unique(nodes@),
            forall|s: int|
                0 <= s < st_idx@.len() ==> ((#[trigger] st_idx@[s]) as int) < nodes@.len(),
            forall|k: int|
                0 <= k < calls@.len() ==> ((#[trigger] calls@[k].caller) as int) < nodes@.len(),
            spec_close_all(defs_view(nodes@), ints_view(st_idx@), line_no as int)
                == spec_close_all(sx.defs, sx.st_idx, sx.line_no),
            (line_no as int) == sx.line_no,
        decreases st_idx@.len(),
    {
        let ghost defs_b = defs_view(nodes@);
        let ghost idx_b = ints_view(st_idx@);
        let p = st_idx.len() - 1;
        let idx = st_idx[p];
        close_node(&mut nodes, idx, line_no);
        let _ = st_idx.pop();
        let _ = st_depth.pop();
        let _ = st_open.pop();
        proof {
            assert(idx_b.last() == idx as int);
            assert(ints_view(st_idx@) =~= idx_b.drop_last());
            assert(defs_view(nodes@) =~= defs_b.update(
                idx as int,
                DefV { end_line: line_no as int, ..defs_b[idx as int] },
            ));
            assert(spec_close_all(defs_b, idx_b, line_no as int) == spec_close_all(
                defs_view(nodes@),
                ints_view(st_idx@),
                line_no as int,
            ));
        }
    }
    proof {
        assert(ints_view(st_idx@) =~= Seq::<int>::empty());
        assert(spec_close_all(defs_view(nodes@), ints_view(st_idx@), line_no as int)
            == defs_view(nodes@));
        assert(sx.ls >= src@.len());
        assert(spec_scan(src@, sx) == ScanSt {
            defs: spec_close_all(sx.defs, sx.st_idx, sx.line_no),
            st_idx: Seq::empty(),
            st_depth: Seq::empty(),
            st_open: Seq::empty(),
            ..sx
        });
        assert(scan_spec(src@) == spec_scan(src@, sx));
        assert(defs_view(nodes@) == scan_spec(src@).defs);
        assert(calls_view(calls@) == scan_spec(src@).calls);
        assert(diags@ == scan_spec(src@).diags);
    }
    (nodes, calls, diags)
}

/// Records the line on which a node's body closed.
fn close_node(nodes: &mut Vec<FunctionNode>, idx: usize, line_no: usize)
    requires
        (idx as int) < old(nodes)@.len(),
    ensures
        final(nodes)@.len() == old(nodes)@.len(),
        forall|i: int|
            0 <= i < old(nodes)@.len() ==> (#[trigger] final(nodes)@[i].name@) == old(
                nodes,
            )@[i].name@,
        defs_view(final(nodes)@) == defs_view(old(nodes)@).update(
            idx as int,
            DefV { end_line: line_no as int, ..def_view(old(nodes)@[idx as int]) },
        ),
{
    let mut tmp = FunctionNode {
        name: Vec::new(),
        visibility: Visibility::Private,
        start_line: 0,
        end_line: 0,
        annotations: Vec::new(),
    };
    nodes.set_and_swap(idx, &mut tmp);
    let updated = FunctionNode {
        name: tmp.name,
        visibility: tmp.visibility,
        start_line: tmp.start_line,
        end_line: line_no,
        annotations: tmp.annotations,
    };
    nodes.set(idx, updated);
    proof {
        assert forall|i: int| 0 <= i < nodes@.len() implies (#[trigger] nodes@[i].name@) == old(
            nodes,
        )@[i].name@ by {
            if i != idx as int {
                assert(nodes@[i] == old(nodes)@[i]);
            }
        }
        assert(defs_view(nodes@) =~= defs_view(old(nodes)@).update(
            idx as int,
            DefV { end_line: line_no as int, ..def_view(old(nodes)@[idx as int]) },
        )) by {
            assert forall|i: int| 0 <= i < nodes@.len() implies defs_view(nodes@)[i] == defs_view(
                old(nodes)@,
            ).update(
                idx as int,
                DefV { end_line: line_no as int, ..def_view(old(nodes)@[idx as int]) },
            )[i] by {
                if i != idx as int {
                    assert(nodes@[i] == old(nodes)@[i]);
                } else {
                    assert(nodes@[i] == updated);
                    assert(tags_view(updated.annotations@) == tags_view(
                        old(nodes)@[idx as int].annotations@,
                    ));
                }
            }
        }
    }
}

} // verus!
