//! Unix path names as text: the final component of a path, and joining.
use vstd::prelude::*;
use crate::text::{
    chars_of, string_from_chars, split_all, lemma_split_all_skip, find_char_from, copy_range,
    chars_equal, push_all, push_str, ends_with_chars,
};

verus! {

broadcast use vstd::string::group_string_axioms;

/// Whether a piece between separators names no component: empty, or `.`.
pub open spec fn is_skipped_piece(p: Seq<char>) -> bool {
    p.len() == 0 || p == seq!['.']
}

/// The last piece that names a component, if any.
pub open spec fn last_component(pieces: Seq<Seq<char>>) -> Option<Seq<char>>
    decreases pieces.len(),
{
    if pieces.len() == 0 {
        None
    } else if is_skipped_piece(pieces.last()) {
        last_component(pieces.drop_last())
    } else {
        Some(pieces.last())
    }
}

/// What `Path::file_name` gives back: the final component, unless there is
/// none or it is `..`. Empty pieces and `.` pieces are not components.
pub open spec fn file_name(path: Seq<char>) -> Option<Seq<char>> {
    match last_component(split_all(path, '/')) {
        Some(p) => if p == seq!['.', '.'] {
            None
        } else {
            Some(p)
        },
        None => None,
    }
}

/// The final component of a path, as `Path::file_name` finds it.
pub fn path_file_name(path: &str) -> (r: Option<String>)
    ensures
        match r {
            Some(s) => file_name(path@) == Some(s@),
            None => file_name(path@) is None,
        },
{
    let text = chars_of(path);
    let n = text.len();
    let mut start: usize = 0;
    let mut found: Option<Vec<char>> = None;
    let ghost done: Seq<Seq<char>> = Seq::empty();
    let dot = vec!['.'];
    assert(text@.skip(0) =~= text@);
    loop
        invariant
            start <= n == text@.len(),
            text@ == path@,
            dot@ == seq!['.'],
            split_all(text@, '/') == done + split_all(text@.skip(start as int), '/'),
            match found {
                Some(f) => last_component(done) == Some(f@),
                None => last_component(done) is None,
            },
        decreases n - start,
    {
        let end = find_char_from(text.as_slice(), '/', start);
        proof {
            lemma_split_all_skip(text@, '/', start as int, end as int);
        }
        let piece = copy_range(text.as_slice(), start, end);
        let ghost next_done = done.push(piece@);
        proof {
            assert(next_done.drop_last() =~= done);
        }
        if !(piece.len() == 0 || chars_equal(piece.as_slice(), dot.as_slice())) {
            found = Some(piece);
        }
        proof {
            if end < n {
                assert(done + split_all(text@.skip(start as int), '/') =~= next_done + split_all(
                    text@.skip(end + 1),
                    '/',
                ));
            } else {
                assert(done + split_all(text@.skip(start as int), '/') =~= next_done);
            }
            done = next_done;
        }
        if end >= n {
            assert(done =~= split_all(text@, '/'));
            match found {
                Some(f) => {
                    let dots = vec!['.', '.'];
                    if chars_equal(f.as_slice(), dots.as_slice()) {
                        return None;
                    }
                    return Some(string_from_chars(f.as_slice()));
                },
                None => {
                    return None;
                },
            }
        }
        start = end + 1;
    }
}

/// What `PathBuf::join` gives back on Unix: an absolute `name` replaces the
/// directory; otherwise a separator is added unless the directory is empty or
/// already ends with one.
pub open spec fn join_path(dir: Seq<char>, name: Seq<char>) -> Seq<char> {
    if name.len() > 0 && name[0] == '/' {
        name
    } else if dir.len() == 0 || dir.last() == '/' {
        dir + name
    } else {
        dir + seq!['/'] + name
    }
}

/// Joins a file name onto a directory.
pub fn join(dir: &str, name: &str) -> (r: String)
    ensures
        r@ == join_path(dir@, name@),
{
    let d = chars_of(dir);
    let n = chars_of(name);
    let mut out: Vec<char> = Vec::new();
    if n.len() > 0 && n[0] == '/' {
        push_all(&mut out, n.as_slice());
        assert(out@ =~= n@);
    } else if d.len() == 0 || d[d.len() - 1] == '/' {
        push_all(&mut out, d.as_slice());
        push_all(&mut out, n.as_slice());
        assert(out@ =~= d@ + n@);
    } else {
        push_all(&mut out, d.as_slice());
        out.push('/');
        push_all(&mut out, n.as_slice());
        assert(out@ =~= d@ + seq!['/'] + n@);
    }
    string_from_chars(out.as_slice())
}

/// The file name of a colour scheme: the final component of its name, with
/// `.colors` added unless it already ends so.
pub open spec fn color_scheme_file_name_spec(name: Seq<char>) -> Option<Seq<char>> {
    match file_name(name) {
        None => None,
        Some(f) => if f.len() >= 7 && f.skip(f.len() - 7) == ".colors"@ {
            Some(f)
        } else {
            Some(f + ".colors"@)
        },
    }
}

/// The file to look for for a colour scheme named `scheme_name`.
pub fn color_scheme_file_name(scheme_name: &str) -> (r: Option<String>)
    ensures
        match r {
            Some(s) => color_scheme_file_name_spec(scheme_name@) == Some(s@),
            None => color_scheme_file_name_spec(scheme_name@) is None,
        },
{
    let f = match path_file_name(scheme_name) {
        Some(f) => f,
        None => {
            return None;
        },
    };
    let fc = chars_of(f.as_str());
    let suffix = chars_of(".colors");
    proof {
        reveal_strlit(".colors");
    }
    if ends_with_chars(fc.as_slice(), suffix.as_slice()) {
        return Some(f);
    }
    let mut out = fc;
    push_str(&mut out, ".colors");
    Some(string_from_chars(out.as_slice()))
}

/// The manifest file of a built-in template: `<id>.json`, where the id must be
/// a plain file name.
pub open spec fn template_file_name_spec(id: Seq<char>) -> Option<Seq<char>> {
    if file_name(id) == Some(id) {
        Some(id + ".json"@)
    } else {
        None
    }
}

/// The manifest file of a built-in template, or `None` for an id that is not
/// a plain file name.
pub fn template_file_name(id: &str) -> (r: Option<String>)
    ensures
        match r {
            Some(s) => template_file_name_spec(id@) == Some(s@),
            None => template_file_name_spec(id@) is None,
        },
{
    let idc = chars_of(id);
    match path_file_name(id) {
        Some(f) => {
            let fc = chars_of(f.as_str());
            if !chars_equal(fc.as_slice(), idc.as_slice()) {
                return None;
            }
            let mut out = idc;
            push_str(&mut out, ".json");
            Some(string_from_chars(out.as_slice()))
        },
        None => None,
    }
}

/// A name that is one path component: not empty, not `.` or `..`, and
/// without a separator.
pub open spec fn is_plain_name(name: Seq<char>) -> bool {
    &&& name.len() > 0
    &&& name != seq!['.']
    &&& name != seq!['.', '.']
    &&& forall|i: int| 0 <= i < name.len() ==> name[i] != '/'
}

proof fn lemma_split_pieces_have_no_separator(s: Seq<char>, c: char)
    ensures
        forall|k: int, i: int|
            0 <= k < split_all(s, c).len() && 0 <= i < split_all(s, c)[k].len() ==> #[trigger] split_all(
                s,
                c,
            )[k][i] != c,
    decreases s.len(),
{
    crate::text::lemma_first_index(s, c);
    let i = crate::text::first_index(s, c);
    if 0 <= i < s.len() {
        lemma_split_pieces_have_no_separator(s.skip(i + 1), c);
        let rest = split_all(s.skip(i + 1), c);
        assert forall|k: int, j: int|
            0 <= k < split_all(s, c).len() && 0 <= j < split_all(s, c)[k].len() implies #[trigger] split_all(
                s,
                c,
            )[k][j] != c by {
            if k > 0 {
                assert(split_all(s, c)[k] == rest[k - 1]);
                assert(rest[k - 1][j] != c);
            }
        }
    }
}

proof fn lemma_last_component_member(pieces: Seq<Seq<char>>)
    ensures
        last_component(pieces) matches Some(p) ==> exists|k: int| 0 <= k < pieces.len() && pieces[k] == p,
        last_component(pieces) matches Some(p) ==> !is_skipped_piece(p),
    decreases pieces.len(),
{
    if pieces.len() > 0 && is_skipped_piece(pieces.last()) {
        lemma_last_component_member(pieces.drop_last());
        if let Some(p) = last_component(pieces) {
            let k = choose|k: int| 0 <= k < pieces.drop_last().len() && pieces.drop_last()[k] == p;
            assert(pieces[k] == p);
        }
    } else if pieces.len() > 0 {
        assert(pieces[pieces.len() - 1] == pieces.last());
    }
}

/// Law: a template id names a built-in manifest exactly when it is a plain
/// name of one path component, so no id reaches outside the template directory.
pub proof fn law_template_ids_are_plain_names(id: Seq<char>)
    ensures
        template_file_name_spec(id) is Some <==> is_plain_name(id),
        template_file_name_spec(id) matches Some(f) ==> f == id + ".json"@,
{
    lemma_split_pieces_have_no_separator(id, '/');
    lemma_last_component_member(split_all(id, '/'));
    if is_plain_name(id) {
        crate::text::lemma_first_index_unique(id, '/', id.len() as int);
        assert(split_all(id, '/') == seq![id]);
        assert(seq![id].drop_last() =~= Seq::<Seq<char>>::empty());
        assert(last_component(seq![id]) == Some(id));
    }
    if file_name(id) == Some(id) {
        let pieces = split_all(id, '/');
        let k = choose|k: int| 0 <= k < pieces.len() && pieces[k] == id;
        assert forall|i: int| 0 <= i < id.len() implies id[i] != '/' by {
            assert(pieces[k][i] != '/');
        }
    }
}

} // verus!
