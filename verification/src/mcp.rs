//! The parts of the MCP client that decide: tool naming, which listed tools
//! are usable, how a tool result becomes text, how an SSE response body is
//! cut into events, and which transport a server configuration asks for.
use vstd::prelude::*;
use crate::models::McpServerConfig;
use crate::text::{
    chars_of, push_char, push_text, push_signed, signed_decimal, text_to_string, text_eq, is_blank, blank,
    is_space, char_is_space, joined, texts_of, join_texts,
};
use crate::json::{json_message, json_message_of};

verus! {

pub open spec fn is_ascii_alnum(c: char) -> bool {
    ('0' <= c && c <= '9') || ('a' <= c && c <= 'z') || ('A' <= c && c <= 'Z')
}

/// Characters an LLM accepts in a tool name are kept, every other becomes '_'.
pub open spec fn tool_name_char(c: char) -> char {
    if is_ascii_alnum(c) || c == '-' || c == '_' {
        c
    } else {
        '_'
    }
}

pub open spec fn sanitized(s: Seq<char>) -> Seq<char> {
    s.map_values(|c: char| tool_name_char(c))
}

fn push_sanitized(r: &mut String, s: &str)
    ensures
        final(r)@ == old(r)@ + sanitized(s@),
{
    let cs = chars_of(s);
    let ghost start = r@;
    let mut i: usize = 0;
    while i < cs.len()
        invariant
            cs@ == s@,
            i <= cs@.len(),
            r@ == start + sanitized(cs@.take(i as int)),
        decreases cs.len() - i,
    {
        let c = cs[i];
        let keep = ('0' <= c && c <= '9') || ('a' <= c && c <= 'z') || ('A' <= c && c <= 'Z') || c == '-' || c == '_';
        push_char(r, if keep { c } else { '_' });
        proof {
            assert(sanitized(cs@.take(i + 1)) =~= sanitized(cs@.take(i as int)).push(tool_name_char(c)));
        }
        i = i + 1;
    }
    assert(cs@.take(cs@.len() as int) =~= cs@);
}

/// The name a tool is exposed under: `<server>__<tool>`, both parts with only
/// `[a-zA-Z0-9_-]`.
pub open spec fn tool_name(server_name: Seq<char>, tool: Seq<char>) -> Seq<char> {
    sanitized(server_name) + "__"@ + sanitized(tool)
}

/// Every character of an exposed tool name is one an LLM accepts:
/// `[a-zA-Z0-9_-]`.
pub proof fn lemma_tool_name_charset(server_name: Seq<char>, tool: Seq<char>)
    ensures
        forall|i: int|
            0 <= i < tool_name(server_name, tool).len() ==> {
                let c = #[trigger] tool_name(server_name, tool)[i];
                is_ascii_alnum(c) || c == '-' || c == '_'
            },
{
    let n = tool_name(server_name, tool);
    reveal_strlit("__");
    assert forall|i: int| 0 <= i < n.len() implies {
        let c = #[trigger] n[i];
        is_ascii_alnum(c) || c == '-' || c == '_'
    } by {
        let a = sanitized(server_name);
        if i < a.len() {
            assert(n[i] == a[i]);
        } else if i < a.len() + 2 {
            assert(n[i] == "__"@[i - a.len()]);
        } else {
            assert(n[i] == sanitized(tool)[i - a.len() - 2]);
        }
    }
}

/// Builds an LLM-safe tool name: `<server>__<tool>` with only [a-zA-Z0-9_-].
pub fn prefixed_tool_name(server_name: &str, tool: &str) -> (r: String)
    ensures
        r@ == tool_name(server_name@, tool@),
{
    let mut r = String::new();
    push_sanitized(&mut r, server_name);
    push_text(&mut r, "__");
    push_sanitized(&mut r, tool);
    r
}

// ---------------------------------------------------------------- tools/list

/// A tool entry of a `tools/list` reply, as far as the client reads it: its
/// name and description when they are strings, and its input schema (as JSON
/// text) when it has one.
#[derive(Debug)]
pub struct ListedTool {
    pub name: Option<String>,
    pub description: Option<String>,
    pub input_schema: Option<String>,
}

/// A tool an MCP server offers; `input_schema` is JSON text.
#[derive(Debug)]
pub struct McpTool {
    pub name: String,
    pub description: String,
    pub input_schema: String,
}

/// The schema a tool without one is given: an object with no properties.
pub open spec fn empty_schema() -> Seq<char> {
    "{\"type\":\"object\",\"properties\":{}}"@
}

pub open spec fn usable_tools(listed: Seq<ListedTool>) -> Seq<(Seq<char>, Seq<char>, Seq<char>)>
    decreases listed.len(),
{
    if listed.len() == 0 {
        Seq::empty()
    } else {
        let prev = usable_tools(listed.drop_last());
        let t = listed.last();
        match t.name {
            Some(n) => prev.push((n@, match t.description {
                Some(d) => d@,
                None => Seq::empty(),
            }, match t.input_schema {
                Some(j) => j@,
                None => empty_schema(),
            })),
            None => prev,
        }
    }
}

/// A listing keeps every named tool, in the order listed, and drops only the
/// ones without a name: one more listed tool adds itself at the end when it
/// has a name (with an empty description and the empty schema standing in
/// for missing ones), and nothing otherwise.
pub proof fn lemma_usable_tools_keep_named(listed: Seq<ListedTool>, t: ListedTool)
    ensures
        usable_tools(Seq::empty()) == Seq::<(Seq<char>, Seq<char>, Seq<char>)>::empty(),
        t.name matches Some(n) ==> usable_tools(listed.push(t)) == usable_tools(listed).push(
            (
                n@,
                match t.description {
                    Some(d) => d@,
                    None => Seq::empty(),
                },
                match t.input_schema {
                    Some(j) => j@,
                    None => "{\"type\":\"object\",\"properties\":{}}"@,
                },
            ),
        ),
        t.name is None ==> usable_tools(listed.push(t)) == usable_tools(listed),
        usable_tools(listed).len() <= listed.len(),
    decreases listed.len(),
{
    assert(listed.push(t).drop_last() =~= listed);
    if listed.len() > 0 {
        lemma_usable_tools_keep_named(listed.drop_last(), listed.last());
        assert(listed.drop_last().push(listed.last()) =~= listed);
    }
}

pub open spec fn tools_view(v: Seq<McpTool>) -> Seq<(Seq<char>, Seq<char>, Seq<char>)> {
    v.map_values(|t: McpTool| (t.name@, t.description@, t.input_schema@))
}

/// The tools of a `tools/list` reply that have a name, in order; a missing
/// description becomes empty and a missing schema the empty object schema.
pub fn select_tools(listed: &Vec<ListedTool>) -> (r: Vec<McpTool>)
    ensures
        tools_view(r@) == usable_tools(listed@),
{
    let mut r: Vec<McpTool> = Vec::new();
    let mut i: usize = 0;
    while i < listed.len()
        invariant
            i <= listed@.len(),
            tools_view(r@) == usable_tools(listed@.take(i as int)),
        decreases listed.len() - i,
    {
        proof {
            assert(listed@.take(i + 1).drop_last() =~= listed@.take(i as int));
            assert(listed@.take(i + 1).last() == listed@[i as int]);
        }
        match &listed[i].name {
            Some(n) => {
                let d = match &listed[i].description {
                    Some(d) => d.clone(),
                    None => String::new(),
                };
                let j = match &listed[i].input_schema {
                    Some(j) => j.clone(),
                    None => text_to_string("{\"type\":\"object\",\"properties\":{}}"),
                };
                let ghost r0 = r@;
                r.push(McpTool { name: n.clone(), description: d, input_schema: j });
                proof {
                    assert(tools_view(r@) =~= tools_view(r0).push((n@, d@, j@)));
                }
            },
            None => {},
        }
        i = i + 1;
    }
    assert(listed@.take(listed@.len() as int) =~= listed@);
    r
}

// ---------------------------------------------------------------- tools/call

/// One item of the `content` of a `tools/call` result: its `type` and `text`
/// when they are strings.
#[derive(Debug)]
pub struct ContentItem {
    pub kind: Option<String>,
    pub text: Option<String>,
}

/// The text parts of a tool result: text items give their text, items of
/// another type are named as unsupported, items without a type are dropped.
pub open spec fn content_parts(items: Seq<ContentItem>) -> Seq<Seq<char>>
    decreases items.len(),
{
    if items.len() == 0 {
        Seq::empty()
    } else {
        let prev = content_parts(items.drop_last());
        let it = items.last();
        match it.kind {
            Some(k) => if k@ == "text"@ {
                match it.text {
                    Some(t) => prev.push(t@),
                    None => prev,
                }
            } else {
                prev.push("[unsupported content of type '"@ + k@ + "']"@)
            },
            None => prev,
        }
    }
}

/// Every content item of a tool result is kept, in order: a text item adds
/// its text, an item of another type adds a note naming that type, and only
/// an item without a type (or a text item without text) adds nothing.
pub proof fn lemma_content_parts_in_order(items: Seq<ContentItem>, it: ContentItem)
    ensures
        content_parts(Seq::empty()) == Seq::<Seq<char>>::empty(),
        it.kind matches Some(k) ==> (k@ == "text"@ ==> content_parts(items.push(it)) == match it.text {
            Some(t) => content_parts(items).push(t@),
            None => content_parts(items),
        }),
        it.kind matches Some(k) ==> (k@ != "text"@ ==> content_parts(items.push(it)) == content_parts(items).push(
            "[unsupported content of type '"@ + k@ + "']"@,
        )),
        it.kind is None ==> content_parts(items.push(it)) == content_parts(items),
{
    assert(items.push(it).drop_last() =~= items);
}

/// A tool result flagged as an error carries the same text as the result
/// would have had without the flag, after a note naming the tool; a result
/// with text parts is those parts joined by newlines, whatever structured
/// content it also has.
pub proof fn lemma_tool_result_text(name: Seq<char>, items: Seq<ContentItem>, structured: Option<Seq<char>>)
    ensures
        tool_result(name, items, structured, false) is Ok,
        tool_result(name, items, structured, true) == Err::<Seq<char>, Seq<char>>(
            "tool '"@ + name + "' reported an error: "@ + tool_result(name, items, structured, false)->Ok_0,
        ),
        content_parts(items).len() > 0 ==> tool_result(name, items, structured, false) == Ok::<Seq<char>, Seq<char>>(
            joined(content_parts(items), "\n"@),
        ),
        content_parts(items).len() > 0 ==> tool_result(name, items, structured, false) == tool_result(name, items, None, false),
        content_parts(items).len() == 0 ==> (structured matches Some(st) ==> tool_result(name, items, structured, false)
            == Ok::<Seq<char>, Seq<char>>(st)),
{
    if content_parts(items).len() == 0 {
        if structured is Some {
            assert(joined(seq![structured->0], "\n"@) == structured->0);
        }
    }
}

/// The text of a tool result: its parts (or, when there are none, the
/// pretty-printed structured content, if any) joined by newlines; a result
/// flagged as an error is an error carrying that text.
pub open spec fn tool_result(
    name: Seq<char>,
    items: Seq<ContentItem>,
    structured: Option<Seq<char>>,
    is_error: bool,
) -> Result<Seq<char>, Seq<char>> {
    let parts = content_parts(items);
    let all = if parts.len() == 0 {
        match structured {
            Some(s) => seq![s],
            None => parts,
        }
    } else {
        parts
    };
    let text = joined(all, "\n"@);
    if is_error {
        Err("tool '"@ + name + "' reported an error: "@ + text)
    } else {
        Ok(text)
    }
}

/// Flattens a `tools/call` result into plain text. `structured` is the
/// pretty-printed `structuredContent`, if the result has one.
pub fn flatten_tool_result(
    name: &str,
    items: &Vec<ContentItem>,
    structured: Option<String>,
    is_error: bool,
) -> (r: Result<String, String>)
    ensures
        match (r, tool_result(name@, items@, match structured { Some(s) => Some(s@), None => None }, is_error)) {
            (Ok(a), Ok(b)) => a@ == b,
            (Err(a), Err(b)) => a@ == b,
            _ => false,
        },
{
    let mut parts: Vec<String> = Vec::new();
    let mut i: usize = 0;
    while i < items.len()
        invariant
            i <= items@.len(),
            texts_of(parts@) == content_parts(items@.take(i as int)),
        decreases items.len() - i,
    {
        proof {
            assert(items@.take(i + 1).drop_last() =~= items@.take(i as int));
            assert(items@.take(i + 1).last() == items@[i as int]);
        }
        let ghost p0 = parts@;
        match &items[i].kind {
            Some(k) => {
                if text_eq(k.as_str(), "text") {
                    match &items[i].text {
                        Some(t) => {
                            parts.push(t.clone());
                            proof {
                                assert(texts_of(parts@) =~= texts_of(p0).push(t@));
                            }
                        },
                        None => {},
                    }
                } else {
                    let mut m = text_to_string("[unsupported content of type '");
                    push_text(&mut m, k.as_str());
                    push_text(&mut m, "']");
                    parts.push(m);
                    proof {
                        assert(texts_of(parts@) =~= texts_of(p0).push(m@));
                    }
                }
            },
            None => {},
        }
        i = i + 1;
    }
    assert(items@.take(items@.len() as int) =~= items@);
    if parts.len() == 0 {
        match structured {
            Some(s) => {
                parts.push(s);
                proof {
                    assert(texts_of(parts@) =~= seq![s@]);
                }
            },
            None => {},
        }
    }
    let text = join_texts(&parts, "\n");
    if is_error {
        let mut m = text_to_string("tool '");
        push_text(&mut m, name);
        push_text(&mut m, "' reported an error: ");
        push_text(&mut m, text.as_str());
        Err(m)
    } else {
        Ok(text)
    }
}

// ---------------------------------------------------------------- SSE

/// The lines of a text as `str::lines` gives them: split at '\n', a line
/// ended by "\r\n" without its '\r', and no empty last line after a final
/// '\n'.
pub open spec fn text_lines(s: Seq<char>) -> Seq<Seq<char>> {
    let pieces = split_at_newlines(s);
    let ended = pieces.drop_last().map_values(|l: Seq<char>| strip_cr(l));
    if s.len() == 0 {
        Seq::empty()
    } else if s.last() == '\n' {
        ended
    } else {
        ended.push(pieces.last())
    }
}

pub open spec fn strip_cr(l: Seq<char>) -> Seq<char> {
    if l.len() > 0 && l.last() == '\r' { l.drop_last() } else { l }
}

/// The pieces between '\n' characters (there is one more piece than there are
/// newlines).
pub open spec fn split_at_newlines(s: Seq<char>) -> Seq<Seq<char>>
    decreases s.len(),
{
    if s.len() == 0 {
        seq![Seq::empty()]
    } else {
        let prev = split_at_newlines(s.drop_last());
        if s.last() == '\n' {
            prev.push(Seq::empty())
        } else {
            prev.drop_last().push(prev.last().push(s.last()))
        }
    }
}

pub open spec fn trim_start(s: Seq<char>) -> Seq<char>
    decreases s.len(),
{
    if s.len() > 0 && is_space(s[0]) {
        trim_start(s.drop_first())
    } else {
        s
    }
}

pub open spec fn trim_end(s: Seq<char>) -> Seq<char>
    decreases s.len(),
{
    if s.len() > 0 && is_space(s.last()) {
        trim_end(s.drop_last())
    } else {
        s
    }
}

pub open spec fn trimmed(s: Seq<char>) -> Seq<char> {
    trim_end(trim_start(s))
}

pub open spec fn data_prefix() -> Seq<char> {
    "data:"@
}

/// The state of reading an SSE body line by line: the events found so far
/// and the data of the event being read.
pub open spec fn sse_scan(lines: Seq<Seq<char>>) -> (Seq<Seq<char>>, Seq<char>)
    decreases lines.len(),
{
    if lines.len() == 0 {
        (Seq::empty(), Seq::empty())
    } else {
        let (events, data) = sse_scan(lines.drop_last());
        let line = lines.last();
        if line.len() >= 5 && line.subrange(0, 5) == data_prefix() {
            (events, data + trim_start(line.subrange(5, line.len() as int)) + "\n"@)
        } else if line.len() == 0 && data.len() > 0 {
            (events.push(trimmed(data)), Seq::empty())
        } else {
            (events, data)
        }
    }
}

/// The data of each complete event of an SSE body, trimmed: the `data:`
/// lines of an event (each without the prefix and leading blanks, ended by
/// '\n'), up to the blank line that closes it; the body's end closes the last
/// event.
pub open spec fn sse_events(body: Seq<char>) -> Seq<Seq<char>> {
    sse_scan(text_lines(body).push(Seq::empty())).0
}

fn lines_of(cs: &Vec<char>) -> (r: Vec<Vec<char>>)
    ensures
        r@.map_values(|l: Vec<char>| l@) == text_lines(cs@),
{
    // pieces between newlines
    let mut pieces: Vec<Vec<char>> = Vec::new();
    let mut cur: Vec<char> = Vec::new();
    let mut i: usize = 0;
    while i < cs.len()
        invariant
            i <= cs@.len(),
            pieces@.map_values(|l: Vec<char>| l@).push(cur@) == split_at_newlines(cs@.take(i as int)),
        decreases cs.len() - i,
    {
        let ghost t = cs@.take(i + 1);
        proof {
            assert(t.drop_last() =~= cs@.take(i as int));
            assert(t.last() == cs@[i as int]);
        }
        let ghost before = pieces@.map_values(|l: Vec<char>| l@).push(cur@);
        if cs[i] == '\n' {
            let mut done: Vec<char> = Vec::new();
            std::mem::swap(&mut done, &mut cur);
            let ghost p0 = pieces@;
            pieces.push(done);
            proof {
                assert(pieces@.map_values(|l: Vec<char>| l@) =~= p0.map_values(|l: Vec<char>| l@).push(done@));
                assert(cur@ =~= Seq::<char>::empty());
                assert(before.push(Seq::empty()) =~= pieces@.map_values(|l: Vec<char>| l@).push(cur@));
            }
        } else {
            let ghost c0 = cur@;
            cur.push(cs[i]);
            proof {
                assert(before.drop_last() =~= pieces@.map_values(|l: Vec<char>| l@));
                assert(before.last() == c0);
                assert(before.drop_last().push(before.last().push(cs@[i as int])) =~= pieces@.map_values(|l: Vec<char>| l@).push(cur@));
            }
        }
        i = i + 1;
    }
    assert(cs@.take(cs@.len() as int) =~= cs@);
    let ghost all = split_at_newlines(cs@);
    let mut r: Vec<Vec<char>> = Vec::new();
    if cs.len() == 0 {
        assert(r@.map_values(|l: Vec<char>| l@) =~= text_lines(cs@));
        return r;
    }
    let ghost ended = pieces@.map_values(|l: Vec<char>| l@);
    assert(ended =~= all.drop_last());
    let mut j: usize = 0;
    while j < pieces.len()
        invariant
            j <= pieces@.len(),
            pieces@.map_values(|l: Vec<char>| l@) == ended,
            r@.map_values(|l: Vec<char>| l@) == ended.take(j as int).map_values(|l: Seq<char>| strip_cr(l)),
        decreases pieces.len() - j,
    {
        let mut l: Vec<char> = Vec::new();
        let src = &pieces[j];
        let mut k: usize = 0;
        let n = if src.len() > 0 && src[src.len() - 1] == '\r' { src.len() - 1 } else { src.len() };
        while k < n
            invariant
                n <= src@.len(),
                k <= n,
                l@ == src@.take(k as int),
            decreases n - k,
        {
            l.push(src[k]);
            proof {
                assert(src@.take(k + 1) =~= src@.take(k as int).push(src@[k as int]));
            }
            k = k + 1;
        }
        proof {
            assert(ended[j as int] == src@);
            assert(l@ =~= strip_cr(src@));
        }
        let ghost r0 = r@;
        r.push(l);
        proof {
            assert(r@.map_values(|l: Vec<char>| l@) =~= r0.map_values(|l: Vec<char>| l@).push(strip_cr(ended[j as int])));
            assert(ended.take(j + 1).map_values(|l: Seq<char>| strip_cr(l)) =~= ended.take(j as int).map_values(
                |l: Seq<char>| strip_cr(l),
            ).push(strip_cr(ended[j as int])));
        }
        j = j + 1;
    }
    assert(ended.take(ended.len() as int) =~= ended);
    let ends_nl = cs[cs.len() - 1] == '\n';
    if !ends_nl {
        let ghost r0 = r@;
        r.push(cur);
        proof {
            assert(r@.map_values(|l: Vec<char>| l@) =~= r0.map_values(|l: Vec<char>| l@).push(all.last()));
        }
    }
    r
}

proof fn lemma_trim_start_skip(s: Seq<char>, from: int, k: int)
    requires
        0 <= from <= k <= s.len(),
        forall|j: int| from <= j < k ==> is_space(#[trigger] s[j]),
    ensures
        trim_start(s.subrange(from, s.len() as int)) == trim_start(s.subrange(k, s.len() as int)),
    decreases k - from,
{
    if from < k {
        let t = s.subrange(from, s.len() as int);
        assert(t[0] == s[from]);
        assert(t.drop_first() =~= s.subrange(from + 1, s.len() as int));
        lemma_trim_start_skip(s, from + 1, k);
    }
}

proof fn lemma_trim_end_skip(s: Seq<char>, k: int)
    requires
        0 <= k <= s.len(),
        forall|j: int| k <= j < s.len() ==> is_space(#[trigger] s[j]),
    ensures
        trim_end(s) == trim_end(s.subrange(0, k)),
    decreases s.len() - k,
{
    if k < s.len() {
        assert(s.drop_last() =~= s.subrange(0, s.len() - 1));
        assert(s.subrange(0, s.len() - 1).subrange(0, k) =~= s.subrange(0, k));
        lemma_trim_end_skip(s.subrange(0, s.len() - 1), k);
    } else {
        assert(s.subrange(0, k) =~= s);
    }
}

/// The characters of `v` from `from` on, without leading white space.
fn trim_start_from(v: &Vec<char>, from: usize) -> (r: Vec<char>)
    requires
        from <= v@.len(),
    ensures
        r@ == trim_start(v@.subrange(from as int, v@.len() as int)),
{
    let mut k = from;
    while k < v.len() && char_is_space(v[k])
        invariant
            from <= k <= v@.len(),
            forall|j: int| from <= j < k ==> is_space(#[trigger] v@[j]),
        decreases v.len() - k,
    {
        k = k + 1;
    }
    proof {
        lemma_trim_start_skip(v@, from as int, k as int);
        let t = v@.subrange(k as int, v@.len() as int);
        if t.len() > 0 {
            assert(t[0] == v@[k as int]);
        }
    }
    let mut r: Vec<char> = Vec::new();
    let mut i = k;
    while i < v.len()
        invariant
            k <= i <= v@.len(),
            r@ == v@.subrange(k as int, i as int),
        decreases v.len() - i,
    {
        r.push(v[i]);
        proof {
            assert(v@.subrange(k as int, i + 1) =~= v@.subrange(k as int, i as int).push(v@[i as int]));
        }
        i = i + 1;
    }
    r
}

/// `v` without leading and trailing white space.
fn trim_chars(v: &Vec<char>) -> (r: Vec<char>)
    ensures
        r@ == trimmed(v@),
{
    let t = trim_start_from(v, 0);
    assert(v@.subrange(0, v@.len() as int) =~= v@);
    let mut k = t.len();
    while k > 0 && char_is_space(t[k - 1])
        invariant
            k <= t@.len(),
            forall|j: int| k <= j < t@.len() ==> is_space(#[trigger] t@[j]),
        decreases k,
    {
        k = k - 1;
    }
    proof {
        lemma_trim_end_skip(t@, k as int);
        let u = t@.subrange(0, k as int);
        if u.len() > 0 {
            assert(u.last() == t@[k - 1]);
        }
    }
    let mut r: Vec<char> = Vec::new();
    let mut i: usize = 0;
    while i < k
        invariant
            k <= t@.len(),
            i <= k,
            r@ == t@.subrange(0, i as int),
        decreases k - i,
    {
        r.push(t[i]);
        proof {
            assert(t@.subrange(0, i + 1) =~= t@.subrange(0, i as int).push(t@[i as int]));
        }
        i = i + 1;
    }
    r
}

fn string_of(v: &Vec<char>) -> (r: String)
    ensures
        r@ == v@,
{
    let mut r = String::new();
    let mut i: usize = 0;
    while i < v.len()
        invariant
            i <= v@.len(),
            r@ == v@.take(i as int),
        decreases v.len() - i,
    {
        push_char(&mut r, v[i]);
        proof {
            assert(v@.take(i + 1) =~= v@.take(i as int).push(v@[i as int]));
        }
        i = i + 1;
    }
    assert(v@.take(v@.len() as int) =~= v@);
    r
}

fn starts_with_data(line: &Vec<char>) -> (r: bool)
    ensures
        r == (line@.len() >= 5 && line@.subrange(0, 5) == data_prefix()),
{
    if line.len() < 5 {
        return false;
    }
    let r = line[0] == 'd' && line[1] == 'a' && line[2] == 't' && line[3] == 'a' && line[4] == ':';
    proof {
        reveal_strlit("data:");
        if r {
            assert(line@.subrange(0, 5) =~= data_prefix());
        } else {
            assert(line@.subrange(0, 5) != data_prefix()) by {
                if line@.subrange(0, 5) == data_prefix() {
                    assert(line@.subrange(0, 5)[0] == line@[0]);
                    assert(line@.subrange(0, 5)[1] == line@[1]);
                    assert(line@.subrange(0, 5)[2] == line@[2]);
                    assert(line@.subrange(0, 5)[3] == line@[3]);
                    assert(line@.subrange(0, 5)[4] == line@[4]);
                }
            }
        }
    }
    r
}

/// The data of each complete event of a server-sent-events body (see
/// `sse_events`), in order.
pub fn sse_event_data(body: &str) -> (r: Vec<String>)
    ensures
        texts_of(r@) == sse_events(body@),
{
    let cs = chars_of(body);
    let mut lines = lines_of(&cs);
    let ghost l0 = lines@.map_values(|l: Vec<char>| l@);
    lines.push(Vec::new());
    let ghost all = lines@.map_values(|l: Vec<char>| l@);
    assert(all =~= l0.push(Seq::empty()));
    let mut events: Vec<String> = Vec::new();
    let mut data: Vec<char> = Vec::new();
    let mut i: usize = 0;
    while i < lines.len()
        invariant
            all == lines@.map_values(|l: Vec<char>| l@),
            i <= lines@.len(),
            (texts_of(events@), data@) == sse_scan(all.take(i as int)),
        decreases lines.len() - i,
    {
        let ghost before = all.take(i as int);
        proof {
            assert(all.take(i + 1).drop_last() =~= before);
            assert(all.take(i + 1).last() == lines@[i as int]@);
        }
        let line = &lines[i];
        if starts_with_data(line) {
            let rest = trim_start_from(line, 5);
            let mut k: usize = 0;
            let ghost d0 = data@;
            while k < rest.len()
                invariant
                    k <= rest@.len(),
                    data@ == d0 + rest@.take(k as int),
                decreases rest.len() - k,
            {
                data.push(rest[k]);
                proof {
                    assert(rest@.take(k + 1) =~= rest@.take(k as int).push(rest@[k as int]));
                }
                k = k + 1;
            }
            data.push('\n');
            proof {
                assert(rest@.take(rest@.len() as int) =~= rest@);
                assert(data@ =~= d0 + rest@ + "\n"@) by {
                    reveal_strlit("\n");
                }
            }
        } else if line.len() == 0 && data.len() > 0 {
            let t = trim_chars(&data);
            let ghost e0 = events@;
            events.push(string_of(&t));
            proof {
                assert(texts_of(events@) =~= texts_of(e0).push(trimmed(data@)));
            }
            data = Vec::new();
        }
        i = i + 1;
    }
    assert(all.take(all.len() as int) =~= all);
    assert(all == text_lines(body@).push(Seq::empty()));
    events
}

/// The `id` of a JSON-RPC message given as JSON text, if it has one.
pub open spec fn message_id(text: Seq<char>) -> Option<i64> {
    match json_message_of(text) {
        Some((id, _, _)) => id,
        None => None,
    }
}

fn id_of_message(text: &str) -> (r: Option<i64>)
    ensures
        r == message_id(text@),
{
    match json_message(text) {
        Some((id, _, _)) => id,
        None => None,
    }
}

/// The first event whose data is the JSON-RPC message with id `id`.
pub open spec fn first_event_with_id(events: Seq<Seq<char>>, id: i64) -> Option<Seq<char>>
    decreases events.len(),
{
    if events.len() == 0 {
        None
    } else if message_id(events[0]) == Some(id) {
        Some(events[0])
    } else {
        first_event_with_id(events.drop_first(), id)
    }
}

/// The JSON-RPC response with id `id` in a server-sent-events body, if any.
pub fn sse_response(body: &str, id: i64) -> (r: Option<String>)
    ensures
        opt_seq(r) == first_event_with_id(sse_events(body@), id),
{
    let events = sse_event_data(body);
    let ghost all = texts_of(events@);
    assert(all.skip(0) =~= all);
    let mut i: usize = 0;
    while i < events.len()
        invariant
            all == texts_of(events@),
            all == sse_events(body@),
            i <= events@.len(),
            first_event_with_id(all, id) == first_event_with_id(all.skip(i as int), id),
        decreases events.len() - i,
    {
        let ghost rest = all.skip(i as int);
        assert(rest[0] == events@[i as int]@);
        assert(rest.drop_first() =~= all.skip(i + 1));
        if id_of_message(events[i].as_str()) == Some(id) {
            let found = events[i].clone();
            assert(first_event_with_id(rest, id) == Some(rest[0]));
            assert(found@ == rest[0]);
            return Some(found);
        }
        i = i + 1;
    }
    None
}

pub open spec fn opt_seq(o: Option<String>) -> Option<Seq<char>> {
    match o {
        Some(s) => Some(s@),
        None => None,
    }
}

/// The body of a reply to request `id` of an HTTP MCP endpoint: an error
/// when the status is not a success; for an event stream, the event that
/// answers the request; otherwise the whole body.
pub open spec fn http_reply(success: bool, status: Seq<char>, content_type: Seq<char>, body: Seq<char>, id: i64) -> Result<Seq<char>, Seq<char>> {
    if !success {
        Err("MCP HTTP endpoint returned "@ + status + ": "@ + body)
    } else if content_type.len() >= 17 && content_type.subrange(0, 17) == "text/event-stream"@ {
        match first_event_with_id(sse_events(body), id) {
            Some(ev) => Ok(ev),
            None => Err("no JSON-RPC response for request "@ + signed_decimal(id as int) + " in SSE stream"@),
        }
    } else {
        Ok(body)
    }
}

fn starts_with_event_stream(content_type: &str) -> (r: bool)
    ensures
        r == (content_type@.len() >= 17 && content_type@.subrange(0, 17) == "text/event-stream"@),
{
    let cs = chars_of(content_type);
    let want = chars_of("text/event-stream");
    proof {
        reveal_strlit("text/event-stream");
    }
    if cs.len() < 17 {
        return false;
    }
    let mut i: usize = 0;
    while i < 17
        invariant
            cs@ == content_type@,
            want@ == "text/event-stream"@,
            want@.len() == 17,
            cs@.len() >= 17,
            i <= 17,
            cs@.subrange(0, i as int) == want@.subrange(0, i as int),
        decreases 17 - i,
    {
        if cs[i] != want[i] {
            proof {
                assert(cs@.subrange(0, 17)[i as int] != want@[i as int]);
            }
            return false;
        }
        proof {
            assert(cs@.subrange(0, i + 1) =~= cs@.subrange(0, i as int).push(cs@[i as int]));
            assert(want@.subrange(0, i + 1) =~= want@.subrange(0, i as int).push(want@[i as int]));
        }
        i = i + 1;
    }
    assert(want@.subrange(0, 17) =~= want@);
    true
}

/// Reads the reply to request `id` of an HTTP MCP endpoint (see
/// `http_reply`); `status` is the HTTP status as shown to a user.
pub fn read_http_reply(success: bool, status: &str, content_type: &str, body: &str, id: i64) -> (r: Result<String, String>)
    ensures
        match (r, http_reply(success, status@, content_type@, body@, id)) {
            (Ok(a), Ok(b)) => a@ == b,
            (Err(a), Err(b)) => a@ == b,
            _ => false,
        },
{
    if !success {
        let mut m = text_to_string("MCP HTTP endpoint returned ");
        push_text(&mut m, status);
        push_text(&mut m, ": ");
        push_text(&mut m, body);
        return Err(m);
    }
    if starts_with_event_stream(content_type) {
        match sse_response(body, id) {
            Some(ev) => Ok(ev),
            None => {
                let mut m = text_to_string("no JSON-RPC response for request ");
                push_signed(&mut m, id);
                push_text(&mut m, " in SSE stream");
                Err(m)
            },
        }
    } else {
        Ok(text_to_string(body))
    }
}

// ---------------------------------------------------------------- connecting

/// The transport a server configuration asks for.
#[derive(PartialEq, Eq, Structural, Clone, Copy, Debug)]
pub enum TransportKind {
    /// Spawn `command` and speak JSON-RPC over its stdin/stdout.
    Stdio,
    /// POST JSON-RPC to `url` (streamable HTTP).
    Http,
}

/// Which transport a configuration uses, or why it cannot be connected: an
/// unknown transport, a stdio server without a command, an http server
/// without a URL.
pub open spec fn transport_choice(name: Seq<char>, transport: Seq<char>, command: Seq<char>, url: Seq<char>) -> Result<TransportKind, Seq<char>> {
    if transport == "stdio"@ {
        if blank(command) {
            Err("stdio MCP server '"@ + name + "' has no command configured"@)
        } else {
            Ok(TransportKind::Stdio)
        }
    } else if transport == "http"@ {
        if blank(url) {
            Err("http MCP server '"@ + name + "' has no URL configured"@)
        } else {
            Ok(TransportKind::Http)
        }
    } else {
        Err("unknown MCP transport '"@ + transport + "' (use 'stdio' or 'http')"@)
    }
}

pub fn choose_transport(cfg: &McpServerConfig) -> (r: Result<TransportKind, String>)
    ensures
        match (r, transport_choice(cfg.name@, cfg.transport@, cfg.command@, cfg.url@)) {
            (Ok(a), Ok(b)) => a == b,
            (Err(a), Err(b)) => a@ == b,
            _ => false,
        },
{
    let t = cfg.transport.as_str();
    if text_eq(t, "stdio") {
        if is_blank(cfg.command.as_str()) {
            let mut m = text_to_string("stdio MCP server '");
            push_text(&mut m, cfg.name.as_str());
            push_text(&mut m, "' has no command configured");
            Err(m)
        } else {
            Ok(TransportKind::Stdio)
        }
    } else if text_eq(t, "http") {
        if is_blank(cfg.url.as_str()) {
            let mut m = text_to_string("http MCP server '");
            push_text(&mut m, cfg.name.as_str());
            push_text(&mut m, "' has no URL configured");
            Err(m)
        } else {
            Ok(TransportKind::Http)
        }
    } else {
        let mut m = text_to_string("unknown MCP transport '");
        push_text(&mut m, t);
        push_text(&mut m, "' (use 'stdio' or 'http')");
        Err(m)
    }
}

/// A live connection is kept when the configuration it was made with has not
/// changed since (same `updated_at`) and it is still alive; otherwise it is
/// replaced by a new one.
pub fn keep_connection(connected_with: &McpServerConfig, cfg: &McpServerConfig, alive: bool) -> (r: bool)
    ensures
        r == (connected_with.updated_at@ == cfg.updated_at@ && alive),
{
    text_eq(connected_with.updated_at.as_str(), cfg.updated_at.as_str()) && alive
}

// ---------------------------------------------------------------- JSON-RPC

/// Which request a line a stdio server wrote answers: a line that, trimmed,
/// is a JSON-RPC response (with an integer `id` and a `result` or `error`).
/// Other lines (blank ones, notifications, requests from the server, what is
/// not JSON) answer none.
pub open spec fn answered_request(line: Seq<char>) -> Option<i64> {
    let t = trimmed(line);
    if t.len() == 0 {
        None
    } else {
        match json_message_of(t) {
            Some((Some(id), has_result, has_error)) => if has_result || has_error {
                Some(id)
            } else {
                None
            },
            _ => None,
        }
    }
}

pub fn response_to(line: &str) -> (r: Option<i64>)
    ensures
        r == answered_request(line@),
{
    let cs = chars_of(line);
    let t = trim_chars(&cs);
    if t.len() == 0 {
        return None;
    }
    let text = string_of(&t);
    match json_message(text.as_str()) {
        Some((Some(id), has_result, has_error)) => if has_result || has_error {
            Some(id)
        } else {
            None
        },
        _ => None,
    }
}

/// The error a JSON-RPC error reply makes: the server, the method and the
/// error as the server sent it (as JSON text).
pub open spec fn rpc_error(server: Seq<char>, method: Seq<char>, error: Seq<char>) -> Seq<char> {
    "MCP server '"@ + server + "' error on "@ + method + ": "@ + error
}

pub fn rpc_error_message(server: &str, method: &str, error: &str) -> (r: String)
    ensures
        r@ == rpc_error(server@, method@, error@),
{
    let mut m = text_to_string("MCP server '");
    push_text(&mut m, server);
    push_text(&mut m, "' error on ");
    push_text(&mut m, method);
    push_text(&mut m, ": ");
    push_text(&mut m, error);
    m
}

// ---------------------------------------------------------------- HTTP requests

pub open spec fn pairs_view(v: Seq<(String, String)>) -> Seq<(Seq<char>, Seq<char>)> {
    v.map_values(|h: (String, String)| (h.0@, h.1@))
}

/// The headers of a JSON-RPC POST to an HTTP MCP endpoint, in order: JSON
/// content, accepting JSON or an event stream; the session id and the
/// protocol version once the server has given them; then the headers the
/// server's configuration adds.
pub open spec fn post_headers(
    session: Option<Seq<char>>,
    protocol: Option<Seq<char>>,
    custom: Seq<(Seq<char>, Seq<char>)>,
) -> Seq<(Seq<char>, Seq<char>)> {
    let base = seq![("Content-Type"@, "application/json"@), ("Accept"@, "application/json, text/event-stream"@)];
    let with_session = match session {
        Some(sid) => base.push(("Mcp-Session-Id"@, sid)),
        None => base,
    };
    let with_protocol = match protocol {
        Some(pv) => with_session.push(("MCP-Protocol-Version"@, pv)),
        None => with_session,
    };
    with_protocol + custom
}

pub fn request_headers(session: &Option<String>, protocol: &Option<String>, custom: &Vec<(String, String)>) -> (r: Vec<(String, String)>)
    ensures
        pairs_view(r@) == post_headers(opt_seq(*session), opt_seq(*protocol), pairs_view(custom@)),
{
    let mut r: Vec<(String, String)> = Vec::new();
    r.push((text_to_string("Content-Type"), text_to_string("application/json")));
    r.push((text_to_string("Accept"), text_to_string("application/json, text/event-stream")));
    match session {
        Some(sid) => r.push((text_to_string("Mcp-Session-Id"), sid.clone())),
        None => {},
    }
    match protocol {
        Some(pv) => r.push((text_to_string("MCP-Protocol-Version"), pv.clone())),
        None => {},
    }
    let ghost head = pairs_view(r@);
    assert(head == post_headers(opt_seq(*session), opt_seq(*protocol), Seq::empty()));
    let mut i: usize = 0;
    while i < custom.len()
        invariant
            i <= custom@.len(),
            pairs_view(r@) == head + pairs_view(custom@).take(i as int),
        decreases custom.len() - i,
    {
        let ghost r0 = pairs_view(r@);
        r.push((custom[i].0.clone(), custom[i].1.clone()));
        proof {
            assert(pairs_view(r@) =~= r0.push((custom@[i as int].0@, custom@[i as int].1@)));
            assert(pairs_view(custom@).take(i + 1) =~= pairs_view(custom@).take(i as int).push(pairs_view(custom@)[i as int]));
        }
        i = i + 1;
    }
    assert(pairs_view(custom@).take(custom@.len() as int) =~= pairs_view(custom@));
    r
}

} // verus!
