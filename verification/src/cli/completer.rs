//! Tab completion at the prompt: command words, character names and file paths.

use crate::text::{
    byte_len, is_piece_of, lemma_piece_byte_len, lemma_words_lie_within, lowercase, split_whitespace, str_eq,
    str_starts_with, to_lowercase, words,
};
use vstd::prelude::*;

verus! {

broadcast use vstd::seq_lib::group_seq_properties;

/// A completion: the text to put in, the byte range of the line it replaces, and
/// whether a space follows it.
pub struct Completion {
    pub value: String,
    pub start: usize,
    pub end: usize,
    pub append_whitespace: bool,
}

/// A completion seen through its text.
pub type CompletionView = (Seq<char>, usize, usize, bool);

impl View for Completion {
    type V = CompletionView;

    open spec fn view(&self) -> CompletionView {
        (self.value@, self.start, self.end, self.append_whitespace)
    }
}

/// The views of a sequence of completions.
pub open spec fn completions_view(s: Seq<Completion>) -> Seq<CompletionView> {
    s.map_values(|c: Completion| c@)
}

/// What to offer for a line: completions, or the entries of the directory `dir` whose
/// file names start with `file_prefix`, each replacing the bytes `start..end`.
pub enum CompletionPlan {
    Suggestions(Vec<Completion>),
    Paths { dir: String, file_prefix: String, start: usize, end: usize },
}

/// A plan seen through its texts.
pub enum PlanView {
    Suggestions(Seq<CompletionView>),
    Paths(Seq<char>, Seq<char>, usize, usize),
}

impl View for CompletionPlan {
    type V = PlanView;

    open spec fn view(&self) -> PlanView {
        match self {
            CompletionPlan::Suggestions(v) => PlanView::Suggestions(completions_view(v@)),
            CompletionPlan::Paths { dir, file_prefix, start, end } => PlanView::Paths(
                dir@,
                file_prefix@,
                *start,
                *end,
            ),
        }
    }
}

/// The command words, in the order in which they are offered.
pub open spec fn command_words() -> Seq<Seq<char>> {
    seq![
        "load"@,
        "list"@,
        "show"@,
        "initiative"@,
        "order"@,
        "next"@,
        "quit"@,
        "exit"@,
    ]
}

/// Whether a text starts with `prefix`.
pub open spec fn starts_with(prefix: Seq<char>) -> spec_fn(Seq<char>) -> bool {
    |s: Seq<char>| prefix.is_prefix_of(s)
}

/// Whether a name starts with `prefix` when both are in lower case.
pub open spec fn name_starts_with(prefix: Seq<char>) -> spec_fn(Seq<char>) -> bool {
    |n: Seq<char>| lowercase(prefix).is_prefix_of(lowercase(n))
}

/// The command words that start with `prefix`, each replacing the line up to `pos`.
pub open spec fn command_completions(prefix: Seq<char>, pos: usize) -> Seq<CompletionView> {
    command_words().filter(starts_with(prefix)).map_values(
        |c: Seq<char>| (c, 0usize, pos, true),
    )
}

/// The names that start with `prefix` regardless of case, each replacing the bytes
/// `start..pos`.
pub open spec fn name_completions(
    names: Seq<Seq<char>>,
    prefix: Seq<char>,
    start: usize,
    pos: usize,
) -> Seq<CompletionView> {
    names.filter(name_starts_with(prefix)).map_values(|n: Seq<char>| (n, start, pos, true))
}

/// The position of the last `c` in `s`, or -1.
pub open spec fn last_index_of(s: Seq<char>, c: char) -> int
    decreases s.len(),
{
    if s.len() == 0 {
        -1
    } else if s.last() == c {
        s.len() - 1
    } else {
        last_index_of(s.drop_last(), c)
    }
}

/// Where to look for paths that complete `prefix`: the directory part up to its last
/// '/', or "." when it has none, and the file name part after it.
pub open spec fn path_plan(prefix: Seq<char>, start: usize, pos: usize) -> PlanView {
    let i = last_index_of(prefix, '/');
    if i >= 0 {
        PlanView::Paths(prefix.take(i + 1), prefix.skip(i + 1), start, pos)
    } else {
        PlanView::Paths("."@, prefix, start, pos)
    }
}

/// `last_index_of` finds the last position of `c` in `s`, or gives -1 when `c` is not
/// there.
pub proof fn lemma_last_index_of(s: Seq<char>, c: char)
    ensures
        -1 <= last_index_of(s, c) < s.len(),
        last_index_of(s, c) == -1 <==> !s.contains(c),
        last_index_of(s, c) >= 0 ==> s[last_index_of(s, c)] == c,
        forall|j: int| last_index_of(s, c) < j < s.len() ==> s[j] != c,
    decreases s.len(),
{
    if s.len() > 0 && s.last() != c {
        let t = s.drop_last();
        lemma_last_index_of(t, c);
        if s.contains(c) {
            let j = choose|j: int| 0 <= j < s.len() && s[j] == c;
            assert(t[j] == c);
        }
        assert forall|j: int| last_index_of(s, c) < j < s.len() implies s[j] != c by {
            if j < t.len() {
                assert(t[j] == s[j]);
            }
        }
    }
}

/// A path is completed from the directory part of the word, up to and including its
/// last '/', and the file name part after it, which holds no '/'; a word without '/'
/// is a file name in the current directory.
pub proof fn lemma_path_plan_splits_at_last_slash(prefix: Seq<char>, start: usize, pos: usize)
    ensures
        path_plan(prefix, start, pos) matches PlanView::Paths(dir, file, st, end) && st == start
            && end == pos && !file.contains('/') && (prefix.contains('/') ==> dir + file
            == prefix && dir.len() > 0 && dir.last() == '/') && (!prefix.contains('/') ==> dir
            == "."@ && file == prefix),
{
    lemma_last_index_of(prefix, '/');
    let i = last_index_of(prefix, '/');
    if i >= 0 {
        let file = prefix.skip(i + 1);
        assert(prefix.take(i + 1) + file =~= prefix);
        if file.contains('/') {
            let j = choose|j: int| 0 <= j < file.len() && file[j] == '/';
            assert(prefix[i + 1 + j] == '/');
        }
    }
}

/// "load" is neither "show" nor "initiative".
proof fn lemma_load_is_no_other_word()
    ensures
        "load"@ != "show"@,
        "load"@ != "initiative"@,
{
    reveal_strlit("load");
    reveal_strlit("show");
    reveal_strlit("initiative");
    assert("load"@[0] != "show"@[0]);
    assert("load"@.len() != "initiative"@.len());
}

/// Completing the second word of a "load" line offers the entries of the directory
/// part of that word, up to and including its last '/' (the current directory when it
/// has none), whose names start with the rest of the word, which holds no '/'.
pub proof fn lemma_load_completes_paths(names: Seq<Seq<char>>, line: Seq<char>, pos: usize)
    requires
        words(line).len() == 2,
        words(line)[0] == "load"@,
        byte_len(line) <= usize::MAX,
    ensures
        plan_for(names, line, pos) matches PlanView::Paths(dir, file, start, end) && end == pos
            && start + byte_len(words(line)[1]) == byte_len(line) && !file.contains('/') && (words(line)[1].contains('/') ==> dir + file == words(
            line,
        )[1] && dir.len() > 0 && dir.last() == '/') && (!words(line)[1].contains('/') ==> dir
            == "."@ && file == words(line)[1]),
{
    lemma_load_is_no_other_word();
    let w1 = words(line)[1];
    lemma_words_lie_within(line);
    lemma_piece_byte_len(w1, line);
    lemma_path_plan_splits_at_last_slash(w1, (byte_len(line) - byte_len(w1)) as usize, pos);
}

/// The line ends in a space.
pub open spec fn ends_with_space(line: Seq<char>) -> bool {
    line.len() > 0 && line.last() == ' '
}

/// What completing `line` at `pos` offers, given the character names.
pub open spec fn plan_for(names: Seq<Seq<char>>, line: Seq<char>, pos: usize) -> PlanView {
    let w = words(line);
    let takes_name = w.len() == 2 && (w[0] == "show"@ || w[0] == "initiative"@);
    if w.len() == 0 {
        PlanView::Suggestions(command_completions(""@, pos))
    } else if w.len() == 1 && !ends_with_space(line) {
        PlanView::Suggestions(command_completions(w[0], pos))
    } else if takes_name && ends_with_space(line) {
        PlanView::Suggestions(
            name_completions(names, ""@, (byte_len(line) - byte_len(""@)) as usize, pos),
        )
    } else if takes_name {
        PlanView::Suggestions(
            name_completions(names, w[1], (byte_len(line) - byte_len(w[1])) as usize, pos),
        )
    } else if w.len() == 2 && w[0] == "load"@ {
        path_plan(w[1], (byte_len(line) - byte_len(w[1])) as usize, pos)
    } else {
        PlanView::Suggestions(Seq::empty())
    }
}

/// The paths among `entries`, given as (file name, path), whose file names start with
/// `file_prefix`, each replacing the bytes `start..end` with no space after it.
pub open spec fn path_completions(
    entries: Seq<(Seq<char>, Seq<char>)>,
    file_prefix: Seq<char>,
    start: usize,
    end: usize,
) -> Seq<CompletionView> {
    entries.filter(|e: (Seq<char>, Seq<char>)| file_prefix.is_prefix_of(e.0)).map_values(
        |e: (Seq<char>, Seq<char>)| (e.1, start, end, false),
    )
}

/// The command words that start with `prefix`.
fn filter_commands(prefix: &str, pos: usize) -> (r: Vec<Completion>)
    ensures
        completions_view(r@) == command_completions(prefix@, pos),
{
    let commands: Vec<&str> = vec!["load", "list", "show", "initiative", "order", "next", "quit", "exit"];
    let ghost cw = commands@.map_values(|c: &str| c@);
    assert(cw =~= command_words());
    let ghost p = starts_with(prefix@);
    let ghost f = |c: Seq<char>| (c, 0usize, pos, true);
    let mut r: Vec<Completion> = Vec::new();
    let mut i: usize = 0;
    while i < commands.len()
        invariant
            i <= commands@.len(),
            cw == commands@.map_values(|c: &str| c@),
            cw == command_words(),
            p == starts_with(prefix@),
            f == (|c: Seq<char>| (c, 0usize, pos, true)),
            completions_view(r@) == cw.take(i as int).filter(p).map_values(f),
        decreases commands@.len() - i,
    {
        let c = commands[i];
        let ghost before = cw.take(i as int).filter(p);
        assert(cw.take(i + 1) =~= cw.take(i as int).push(c@));
        proof {
            cw.take(i as int).lemma_filter_push(c@, p);
        }
        if str_starts_with(c, prefix) {
            let ghost old_r = completions_view(r@);
            r.push(Completion { value: c.to_owned(), start: 0, end: pos, append_whitespace: true });
            assert(completions_view(r@) =~= old_r.push(f(c@)));
            assert(before.push(c@).map_values(f) =~= before.map_values(f).push(f(c@)));
        }
        i = i + 1;
    }
    assert(cw.take(commands@.len() as int) =~= cw);
    r
}

/// The names that start with `prefix` regardless of case.
fn filter_names(names: &Vec<String>, prefix: &str, start: usize, pos: usize) -> (r: Vec<Completion>)
    ensures
        completions_view(r@) == name_completions(names@.map_values(|n: String| n@), prefix@, start, pos),
{
    let ghost nv = names@.map_values(|n: String| n@);
    let ghost p = name_starts_with(prefix@);
    let ghost f = |n: Seq<char>| (n, start, pos, true);
    let lower_prefix = to_lowercase(prefix);
    let mut r: Vec<Completion> = Vec::new();
    let mut i: usize = 0;
    while i < names.len()
        invariant
            i <= names@.len(),
            nv == names@.map_values(|n: String| n@),
            p == name_starts_with(prefix@),
            f == (|n: Seq<char>| (n, start, pos, true)),
            lower_prefix@ == lowercase(prefix@),
            completions_view(r@) == nv.take(i as int).filter(p).map_values(f),
        decreases names@.len() - i,
    {
        let n = &names[i];
        let ghost before = nv.take(i as int).filter(p);
        assert(nv.take(i + 1) =~= nv.take(i as int).push(n@));
        proof {
            nv.take(i as int).lemma_filter_push(n@, p);
        }
        let lower = to_lowercase(n.as_str());
        if str_starts_with(lower.as_str(), lower_prefix.as_str()) {
            let ghost old_r = completions_view(r@);
            r.push(Completion { value: n.clone(), start, end: pos, append_whitespace: true });
            assert(completions_view(r@) =~= old_r.push(f(n@)));
            assert(before.push(n@).map_values(f) =~= before.map_values(f).push(f(n@)));
        }
        i = i + 1;
    }
    assert(nv.take(names@.len() as int) =~= nv);
    r
}

/// Where to look for paths that complete `prefix`.
fn plan_paths(prefix: &str, start: usize, pos: usize) -> (r: CompletionPlan)
    ensures
        r@ == path_plan(prefix@, start, pos),
{
    let n = prefix.unicode_len();
    let mut k: usize = n;
    while k > 0 && prefix.get_char(k - 1) != '/'
        invariant
            k <= n,
            n == prefix@.len(),
            last_index_of(prefix@, '/') == last_index_of(prefix@.take(k as int), '/'),
        decreases k,
    {
        assert(prefix@.take(k as int).drop_last() =~= prefix@.take(k - 1));
        k = k - 1;
    }
    if k == 0 {
        assert(prefix@.take(0) =~= Seq::<char>::empty());
        CompletionPlan::Paths {
            dir: ".".to_owned(),
            file_prefix: prefix.to_owned(),
            start,
            end: pos,
        }
    } else {
        let dir = prefix.substring_char(0, k);
        let file_prefix = prefix.substring_char(k, n);
        assert(prefix@.take(k as int) =~= prefix@.subrange(0, k as int));
        assert(prefix@.skip(k as int) =~= prefix@.subrange(k as int, n as int));
        CompletionPlan::Paths {
            dir: dir.to_owned(),
            file_prefix: file_prefix.to_owned(),
            start,
            end: pos,
        }
    }
}

/// The completer of the prompt, with the names of the characters loaded so far.
pub struct CommandCompleter {
    pub names: Vec<String>,
}

impl CommandCompleter {
    /// What completing `line`, with the cursor at byte `pos`, offers: command words for
    /// the first word, character names after "show" or "initiative", file paths after
    /// "load", and nothing otherwise.
    pub fn complete(&self, line: &str, pos: usize) -> (r: CompletionPlan)
        ensures
            r@ == plan_for(self.names@.map_values(|n: String| n@), line@, pos),
            words(line@).len() == 2 && words(line@)[0] == "load"@ ==> (r@ matches PlanView::Paths(
                dir,
                file,
                start,
                end,
            ) && end == pos && start + byte_len(words(line@)[1]) == byte_len(line@) && !file.contains(
                '/',
            ) && (words(line@)[1].contains('/') ==> dir
                + file == words(line@)[1] && dir.len() > 0 && dir.last() == '/') && (!words(
                line@,
            )[1].contains('/') ==> dir == "."@ && file == words(line@)[1])),
    {
        proof {
            lemma_load_is_no_other_word();
        }
        let parts = split_whitespace(line);
        let ghost w = words(line@);
        assert(parts@.len() == w.len());
        let n = parts.len();
        let ends_with_space = {
            let len = line.unicode_len();
            len > 0 && line.get_char(len - 1) == ' '
        };
        if n == 0 {
            return CompletionPlan::Suggestions(filter_commands("", pos));
        }
        assert(parts@[0]@ == w[0]);
        if n == 1 && !ends_with_space {
            return CompletionPlan::Suggestions(filter_commands(parts[0], pos));
        }
        if n == 2 {
            assert(parts@[1]@ == w[1]);
            let head = parts[0];
            let word = parts[1];
            proof {
                lemma_piece_byte_len(word@, line@);
            }
            if str_eq(head, "show") || str_eq(head, "initiative") {
                if ends_with_space {
                    proof {
                        reveal_strlit("");
                    }
                    let empty = "";
                    let start = line.as_bytes().len() - empty.as_bytes().len();
                    return CompletionPlan::Suggestions(filter_names(&self.names, empty, start, pos));
                }
                let start = line.as_bytes().len() - word.as_bytes().len();
                return CompletionPlan::Suggestions(filter_names(&self.names, word, start, pos));
            }
            if str_eq(head, "load") {
                let start = line.as_bytes().len() - word.as_bytes().len();
                proof {
                    lemma_load_completes_paths(self.names@.map_values(|n: String| n@), line@, pos);
                }
                return plan_paths(word, start, pos);
            }
        }
        let none: Vec<Completion> = Vec::new();
        assert(completions_view(none@) =~= Seq::<CompletionView>::empty());
        CompletionPlan::Suggestions(none)
    }
}

/// The paths among `entries`, given as (file name, path), whose file names start with
/// `file_prefix`.
pub fn select_paths(
    entries: &Vec<(String, String)>,
    file_prefix: &str,
    start: usize,
    end: usize,
) -> (r: Vec<Completion>)
    ensures
        completions_view(r@) == path_completions(
            entries@.map_values(|e: (String, String)| (e.0@, e.1@)),
            file_prefix@,
            start,
            end,
        ),
{
    let ghost ev = entries@.map_values(|e: (String, String)| (e.0@, e.1@));
    let ghost p = |e: (Seq<char>, Seq<char>)| file_prefix@.is_prefix_of(e.0);
    let ghost f = |e: (Seq<char>, Seq<char>)| (e.1, start, end, false);
    let mut r: Vec<Completion> = Vec::new();
    let mut i: usize = 0;
    while i < entries.len()
        invariant
            i <= entries@.len(),
            ev == entries@.map_values(|e: (String, String)| (e.0@, e.1@)),
            p == (|e: (Seq<char>, Seq<char>)| file_prefix@.is_prefix_of(e.0)),
            f == (|e: (Seq<char>, Seq<char>)| (e.1, start, end, false)),
            completions_view(r@) == ev.take(i as int).filter(p).map_values(f),
        decreases entries@.len() - i,
    {
        let e = &entries[i];
        let ghost x = (e.0@, e.1@);
        let ghost before = ev.take(i as int).filter(p);
        assert(ev.take(i + 1) =~= ev.take(i as int).push(x));
        proof {
            ev.take(i as int).lemma_filter_push(x, p);
        }
        if str_starts_with(e.0.as_str(), file_prefix) {
            let ghost old_r = completions_view(r@);
            r.push(Completion { value: e.1.clone(), start, end, append_whitespace: false });
            assert(completions_view(r@) =~= old_r.push(f(x)));
            assert(before.push(x).map_values(f) =~= before.map_values(f).push(f(x)));
        }
        i = i + 1;
    }
    assert(ev.take(entries@.len() as int) =~= ev);
    assert(path_completions(ev, file_prefix@, start, end) == ev.filter(p).map_values(f));
    r
}

} // verus!
