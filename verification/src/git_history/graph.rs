use vstd::prelude::*;
use crate::git_history::types::CommitInfo;
use crate::text::{
    char_utf8_len, char_width, chars_of, first_line, lemma_utf8_len_take_mono,
    lemma_utf8_len_take_step, lines_of, push_all, string_from_chars, text_lines, utf8_len,
    views_of,
};

verus! {

/// One commit placed in the commit graph.
#[derive(Debug)]
pub struct CommitGraphNode {
    pub commit: CommitInfo,
    pub graph_line: String,
    pub level: usize,
}

/// The graph column drawn before every commit.
pub open spec fn graph_marker() -> Seq<char> {
    seq!['*', ' ']
}

/// One node per commit, in order, each drawn as `"* "` at level zero.
pub fn generate_commit_graph(commits: &[CommitInfo]) -> (r: Vec<CommitGraphNode>)
    ensures
        r@.len() == commits@.len(),
        forall|i: int|
            0 <= i < commits@.len() ==> (#[trigger] r@[i]).commit == commits@[i] && r@[i].graph_line@
                == graph_marker() && r@[i].level == 0,
{
    let mut r: Vec<CommitGraphNode> = Vec::new();
    for i in 0..commits.len()
        invariant
            r@.len() == i,
            forall|j: int|
                0 <= j < i ==> (#[trigger] r@[j]).commit == commits@[j] && r@[j].graph_line@
                    == graph_marker() && r@[j].level == 0,
    {
        let marker = vec!['*', ' '];
        r.push(
            CommitGraphNode {
                commit: commits[i].clone(),
                graph_line: string_from_chars(&marker),
                level: 0,
            },
        );
    }
    r
}

/// The graph column takes two bytes.
pub proof fn lemma_graph_marker_len()
    ensures
        utf8_len(graph_marker()) == 2,
{
    let e = Seq::<char>::empty();
    assert(graph_marker() == e.push('*').push(' '));
    assert(utf8_len(e) == 0) by {
        assert(vstd::utf8::encode_utf8(e) =~= Seq::<u8>::empty());
    }
    crate::text::lemma_utf8_len_push(e, '*');
    crate::text::lemma_utf8_len_push(e.push('*'), ' ');
}

/// The id cut to its first seven bytes (whole when it is shorter).
pub open spec fn short_id(id: Seq<char>) -> Seq<char> {
    if utf8_len(id) >= 7 {
        id.take(choose|k: int| 0 <= k <= id.len() && utf8_len(#[trigger] id.take(k)) == 7)
    } else {
        id
    }
}

/// Byte seven of `id` falls between two characters (when `id` has that many bytes).
pub open spec fn seven_bytes_on_boundary(id: Seq<char>) -> bool {
    utf8_len(id) >= 7 ==> exists|k: int| 0 <= k <= id.len() && utf8_len(#[trigger] id.take(k)) == 7
}

/// The note mark put before an annotation.
pub open spec fn note_mark() -> Seq<char> {
    seq!['\u{1F4DD}', ' ']
}

/// The rows shown for `node`: graph column, short id and first message line; then, when
/// asked and present, the annotation indented past the graph column.
pub open spec fn graph_rows(commit: CommitInfo, graph_line: Seq<char>, show_annotation: bool) -> Seq<
    Seq<char>,
> {
    let main = graph_line + short_id(commit.id@) + seq![' '] + first_line(commit.message@);
    match commit.annotation {
        Some(a) if show_annotation => seq![
            main,
            Seq::new(utf8_len(graph_line) + 2, |_i: int| ' ') + note_mark() + a@,
        ],
        _ => seq![main],
    }
}

pub open spec fn string_views(v: Seq<String>) -> Seq<Seq<char>> {
    v.map_values(|s: String| s@)
}

fn short_id_chars(id: &[char]) -> (r: Vec<char>)
    requires
        seven_bytes_on_boundary(id@),
    ensures
        r@ == short_id(id@),
{
    let mut bytes: usize = 0;
    let mut k: usize = 0;
    while k < id.len() && bytes < 7
        invariant
            0 <= k <= id@.len(),
            bytes == utf8_len(id@.take(k as int)),
            bytes <= 10,
            k > 0 ==> utf8_len(id@.take(k - 1)) < 7,
        decreases id@.len() - k,
    {
        proof {
            lemma_utf8_len_take_step(id@, k as int);
        }
        bytes = bytes + char_width(id[k]);
        k += 1;
    }
    if bytes >= 7 {
        proof {
            assert(utf8_len(id@) >= 7) by {
                lemma_utf8_len_take_mono(id@, k as int, id@.len() as int);
                assert(id@.take(id@.len() as int) == id@);
            }
            let w = choose|w: int| 0 <= w <= id@.len() && utf8_len(#[trigger] id@.take(w)) == 7;
            if w < k {
                lemma_utf8_len_take_mono(id@, w, k as int - 1);
            } else if w > k {
                lemma_utf8_len_take_mono(id@, k as int, w);
            }
            assert(w == k);
        }
        let mut r: Vec<char> = Vec::new();
        let mut j: usize = 0;
        while j < k
            invariant
                0 <= j <= k <= id@.len(),
                r@ == id@.take(j as int),
            decreases k - j,
        {
            r.push(id[j]);
            proof {
                assert(id@.take(j + 1) == id@.take(j as int).push(id@[j as int]));
            }
            j += 1;
        }
        r
    } else {
        proof {
            assert(k == id@.len());
            assert(id@.take(k as int) == id@);
        }
        let mut r: Vec<char> = Vec::new();
        push_all(&mut r, id);
        proof {
            assert(r@ =~= id@);
        }
        r
    }
}

/// The rows shown for `node` in the history list.
pub fn format_graph_line(node: &CommitGraphNode, show_annotation: bool) -> (r: Vec<String>)
    requires
        seven_bytes_on_boundary(node.commit.id@),
        utf8_len(node.graph_line@) + 2 <= usize::MAX,
    ensures
        string_views(r@) == graph_rows(node.commit, node.graph_line@, show_annotation),
{
    let id = chars_of(node.commit.id.as_str());
    let short = short_id_chars(&id);
    let message = chars_of(node.commit.message.as_str());
    let lines = lines_of(&message);
    let mut main: Vec<char> = chars_of(node.graph_line.as_str());
    push_all(&mut main, &short);
    main.push(' ');
    if lines.len() > 0 {
        proof {
            assert(views_of(lines@)[0] == lines@[0]@);
        }
        push_all(&mut main, &lines[0]);
    }
    proof {
        assert(main@ =~= node.graph_line@ + short_id(node.commit.id@) + seq![' '] + first_line(
            node.commit.message@,
        ));
    }
    let mut out: Vec<String> = Vec::new();
    out.push(string_from_chars(&main));
    if show_annotation {
        match &node.commit.annotation {
            Some(a) => {
                let n = node.graph_line.as_str().len() + 2;
                let mut row: Vec<char> = Vec::new();
                let mut i: usize = 0;
                while i < n
                    invariant
                        0 <= i <= n,
                        row@ == Seq::new(i as nat, |_j: int| ' '),
                    decreases n - i,
                {
                    row.push(' ');
                    proof {
                        assert(row@ =~= Seq::new((i + 1) as nat, |_j: int| ' '));
                    }
                    i += 1;
                }
                row.push('\u{1F4DD}');
                row.push(' ');
                let ac = chars_of(a.as_str());
                push_all(&mut row, &ac);
                proof {
                    assert(row@ =~= Seq::new(n as nat, |_j: int| ' ') + note_mark() + a@);
                }
                out.push(string_from_chars(&row));
            },
            None => {},
        }
    }
    proof {
        assert(string_views(out@) =~= graph_rows(node.commit, node.graph_line@, show_annotation));
    }
    out
}

} // verus!
