//! What an activated node is handed: its input sections, each under a heading
//! naming where the payload came from.
use vstd::prelude::*;
use crate::text::{text_eq, text_to_string, push_text, blank, is_blank};

verus! {

pub open spec fn sections_view(sections: Seq<(String, String)>) -> Seq<(Seq<char>, Seq<char>)> {
    sections.map_values(|s: (String, String)| (s.0@, s.1@))
}

pub open spec fn section_text(s: (Seq<char>, Seq<char>)) -> Seq<char> {
    "# "@ + s.0 + "\n"@ + s.1
}

/// The sections, each as "# heading\npayload", separated by blank lines.
pub open spec fn joined_sections(secs: Seq<(Seq<char>, Seq<char>)>) -> Seq<char>
    decreases secs.len(),
{
    if secs.len() == 0 {
        Seq::empty()
    } else if secs.len() == 1 {
        section_text(secs[0])
    } else {
        joined_sections(secs.drop_last()) + "\n\n"@ + section_text(secs.last())
    }
}

/// The input text of an activation: its sections, or a plain instruction to
/// get going when there are none.
pub open spec fn rendered_input(secs: Seq<(Seq<char>, Seq<char>)>) -> Seq<char> {
    if secs.len() == 0 {
        "Execute your task."@
    } else {
        joined_sections(secs)
    }
}

/// How an input is rendered, section by section: no sections give a plain
/// instruction; one section gives "# heading\npayload"; and each further
/// section adds a blank line and its own "# heading\npayload" after
/// everything before it, so no section is ever lost or reordered.
pub proof fn lemma_rendered_input_by_section(secs: Seq<(Seq<char>, Seq<char>)>, x: (Seq<char>, Seq<char>))
    ensures
        rendered_input(Seq::empty()) == "Execute your task."@,
        rendered_input(seq![x]) == "# "@ + x.0 + "\n"@ + x.1,
        secs.len() > 0 ==> rendered_input(secs.push(x)) == rendered_input(secs) + "\n\n"@ + "# "@ + x.0 + "\n"@ + x.1,
        secs.len() > 0 ==> rendered_input(secs.push(x)).len() > rendered_input(secs).len(),
{
    let t = secs.push(x);
    assert(t.drop_last() =~= secs);
    assert(seq![x][0] == x);
    if secs.len() > 0 {
        reveal_strlit("\n\n");
        reveal_strlit("# ");
        assert(rendered_input(t) =~= joined_sections(secs) + "\n\n"@ + ("# "@ + x.0 + "\n"@ + x.1));
    }
}

pub fn render_input(sections: &Vec<(String, String)>) -> (r: String)
    ensures
        r@ == rendered_input(sections_view(sections@)),
{
    let ghost v = sections_view(sections@);
    if sections.len() == 0 {
        return text_to_string("Execute your task.");
    }
    let mut r = String::new();
    let mut i: usize = 0;
    while i < sections.len()
        invariant
            v == sections_view(sections@),
            0 < sections@.len(),
            i <= sections@.len(),
            r@ == joined_sections(v.take(i as int)),
        decreases sections.len() - i,
    {
        if i > 0 {
            push_text(&mut r, "\n\n");
        }
        push_text(&mut r, "# ");
        push_text(&mut r, sections[i].0.as_str());
        push_text(&mut r, "\n");
        push_text(&mut r, sections[i].1.as_str());
        proof {
            let t = v.take(i + 1);
            assert(t.drop_last() =~= v.take(i as int));
            assert(t.last() == v[i as int]);
            assert(v[i as int] == (sections@[i as int].0@, sections@[i as int].1@));
            if i == 0 {
                assert(t.len() == 1);
            }
        }
        i = i + 1;
    }
    assert(v.take(sections@.len() as int) =~= v);
    r
}

/// The sections the source nodes of a run start with.
pub open spec fn seed_sections(input: Seq<char>) -> Seq<(Seq<char>, Seq<char>)> {
    if blank(input) {
        Seq::empty()
    } else {
        seq![("Workflow input"@, input)]
    }
}

pub fn make_seed_sections(input: &str) -> (r: Vec<(String, String)>)
    ensures
        sections_view(r@) == seed_sections(input@),
{
    let mut r: Vec<(String, String)> = Vec::new();
    if !is_blank(input) {
        r.push((text_to_string("Workflow input"), text_to_string(input)));
        assert(sections_view(r@) =~= seed_sections(input@));
    } else {
        assert(sections_view(r@) =~= seed_sections(input@));
    }
    r
}

/// Whether a node kind names a file node ("file" reads one, "file_dest"
/// writes one); such a node is named and headed by its file.
pub open spec fn is_file_kind(kind: Seq<char>) -> bool {
    kind == "file"@ || kind == "file_dest"@
}

pub fn file_kind(kind: &str) -> (r: bool)
    ensures
        r == is_file_kind(kind@),
{
    text_eq(kind, "file") || text_eq(kind, "file_dest")
}

/// The heading of a payload coming out of a node: a file's content is named
/// by the file, an agent's output by the agent (marked when it comes back
/// around a loop).
pub open spec fn heading(is_file: bool, file_name: Seq<char>, agent: Seq<char>, via_loop: bool) -> Seq<char> {
    if is_file {
        "Content of file \""@ + file_name + "\""@
    } else if via_loop {
        "Output from upstream agent \""@ + agent + "\" (loop iteration)"@
    } else {
        "Output from upstream agent \""@ + agent + "\""@
    }
}

/// A heading names where a payload came from: a file node by its file name
/// alone; an agent by its name, and a payload that came back along a loop
/// carries the same heading followed by " (loop iteration)".
pub proof fn lemma_heading_names_source(file_name: Seq<char>, agent: Seq<char>, other_agent: Seq<char>, via_loop: bool)
    ensures
        heading(true, file_name, agent, via_loop) == heading(true, file_name, other_agent, !via_loop),
        heading(true, file_name, agent, via_loop) == "Content of file \""@ + file_name + "\""@,
        heading(false, file_name, agent, false) == "Output from upstream agent \""@ + agent + "\""@,
        heading(false, file_name, agent, true) == heading(false, file_name, agent, false) + " (loop iteration)"@,
{
    reveal_strlit("\" (loop iteration)");
    reveal_strlit("\"");
    reveal_strlit(" (loop iteration)");
    assert("\" (loop iteration)"@ =~= "\""@ + " (loop iteration)"@);
    assert(heading(false, file_name, agent, true) =~= heading(false, file_name, agent, false) + " (loop iteration)"@);
}

pub fn make_heading(is_file: bool, file_name: &str, agent: &str, via_loop: bool) -> (r: String)
    ensures
        r@ == heading(is_file, file_name@, agent@, via_loop),
{
    if is_file {
        let mut r = text_to_string("Content of file \"");
        push_text(&mut r, file_name);
        push_text(&mut r, "\"");
        r
    } else {
        let mut r = text_to_string("Output from upstream agent \"");
        push_text(&mut r, agent);
        if via_loop {
            push_text(&mut r, "\" (loop iteration)");
        } else {
            push_text(&mut r, "\"");
        }
        r
    }
}

/// What `std::path::Path::file_name` gives for a path: its last component,
/// if it has one.
pub uninterp spec fn path_file_name(path: Seq<char>) -> Option<Seq<char>>;

/// `std::path::Path::file_name` on a path given as text; the name is
/// returned as text (it is valid UTF-8, as the path is).
#[verifier::external_body]
fn file_name_of(path: &str) -> (r: Option<String>)
    ensures
        r matches Some(s) ==> path_file_name(path@) == Some(s@),
        r is None ==> path_file_name(path@) is None,
{
    match std::path::Path::new(path).file_name() {
        Some(name) => Some(name.to_string_lossy().into_owned()),
        None => None,
    }
}

/// Short display name of a file node: the file name portion of its path, or
/// the whole path when that is empty or missing.
pub open spec fn file_display(path: Seq<char>) -> Seq<char> {
    match path_file_name(path) {
        Some(name) => if name.len() > 0 { name } else { path },
        None => path,
    }
}

pub fn file_display_name(path: &str) -> (r: String)
    ensures
        r@ == file_display(path@),
{
    match file_name_of(path) {
        Some(name) => {
            if !name.as_str().is_empty() {
                name
            } else {
                text_to_string(path)
            }
        },
        None => text_to_string(path),
    }
}

/// The name a node is shown under: "File: <name>" for a file node, otherwise
/// the name of its agent card, or the node id when the card cannot be found.
pub open spec fn agent_display(is_file: bool, path: Seq<char>, node_id: Seq<char>, card_name: Option<Seq<char>>) -> Seq<char> {
    if is_file {
        "File: "@ + file_display(path)
    } else {
        match card_name {
            Some(name) => name,
            None => node_id,
        }
    }
}

pub fn agent_display_name(is_file: bool, path: &str, node_id: &str, card_name: &Option<String>) -> (r: String)
    ensures
        r@ == agent_display(is_file, path@, node_id@, match card_name { Some(s) => Some(s@), None => None }),
{
    if is_file {
        let mut r = text_to_string("File: ");
        let d = file_display_name(path);
        push_text(&mut r, d.as_str());
        r
    } else {
        match card_name {
            Some(name) => text_to_string(name.as_str()),
            None => text_to_string(node_id),
        }
    }
}

} // verus!
