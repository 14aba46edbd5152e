//! The decisions of the agent hooks (`duflow hook <event>`): which lint errors block, whether a
//! shell command is a commit, and the texts handed back to the agent. Reading the hook input,
//! git and the disk stay with the program.

use vstd::prelude::*;
use crate::lint::{Diagnostic, Level, diag_text};
use crate::strset::{views, set_contains};
use crate::model::ostr;
use crate::text::{split_words, words, chars_of, contains_seq, contains_str, dec, dec_string, is_prefix, join, join_strings, push_char, push_str, starts_with, str_eq, string_from};

verus! {

/// The hook events.
#[derive(Debug, Clone, Copy, PartialEq, Eq, Structural)]
pub enum Event {
    SessionStart,
    PostTool,
    Stop,
    PreBash,
}

/// The first index of `w` in `ws`, or -1.
pub open spec fn index_of_word(ws: Seq<Seq<char>>, w: Seq<char>) -> int
    decreases ws.len(),
{
    if ws.len() == 0 {
        -1
    } else if ws[0] == w {
        0
    } else {
        let r = index_of_word(ws.drop_first(), w);
        if r < 0 { -1 } else { r + 1 }
    }
}

/// A shell command runs `git commit`: `git` right before `commit`, or `commit` among the
/// four words after the first `git` (`git -C x commit`).
pub open spec fn git_commit_spec(cmd: Seq<char>) -> bool {
    let t = words(cmd);
    let p = index_of_word(t, "git"@);
    ||| exists|i: int| 0 <= i && i + 1 < t.len() && #[trigger] t[i] == "git"@ && t[i + 1] == "commit"@
    ||| p >= 0 && exists|j: int| p < j <= p + 4 && j < t.len() && #[trigger] t[j] == "commit"@
}

proof fn lemma_index_of_word(ws: Seq<Seq<char>>, w: Seq<char>, k: int)
    requires
        0 <= k <= ws.len(),
        forall|j: int| 0 <= j < k ==> ws[j] != w,
    ensures
        index_of_word(ws, w) == (if index_of_word(ws.skip(k), w) < 0 { -1 } else { index_of_word(ws.skip(k), w) + k }),
    decreases k,
{
    if k == 0 {
        assert(ws.skip(0) =~= ws);
    } else {
        assert(ws.drop_first().skip(k - 1) =~= ws.skip(k));
        assert forall|j: int| 0 <= j < k - 1 implies ws.drop_first()[j] != w by {
            assert(ws.drop_first()[j] == ws[j + 1]);
        }
        lemma_index_of_word(ws.drop_first(), w, k - 1);
    }
}

/// Whether a shell command commits with git (`git commit`, `git -C x commit -am y`, but not
/// `git log | grep commit`).
pub fn is_git_commit(cmd: &str) -> (res: bool)
    ensures
        res == git_commit_spec(cmd@),
{
    let toks = split_words(cmd);
    let ghost t = views(toks@);
    proof {
        reveal_strlit("git");
        reveal_strlit("commit");
    }
    let mut i: usize = 0;
    let n = toks.len();
    while n > 0 && i < n - 1
        invariant
            n == toks@.len(),
            i <= n,
            t == views(toks@),
            t == words(cmd@),
            forall|m: int| 0 <= m < i ==> !(#[trigger] t[m] == "git"@ && t[m + 1] == "commit"@),
        decreases toks.len() - i,
    {
        if str_eq(toks[i].as_str(), "git") && str_eq(toks[i + 1].as_str(), "commit") {
            proof {
                assert(t[i as int] == "git"@ && t[i + 1] == "commit"@);
            }
            return true;
        }
        i += 1;
    }
    let mut p: usize = 0;
    while p < toks.len() && !str_eq(toks[p].as_str(), "git")
        invariant
            t == views(toks@),
            p <= toks@.len(),
            t == words(cmd@),
            forall|j: int| 0 <= j < p ==> t[j] != "git"@,
            forall|m: int| 0 <= m && m + 1 < t.len() ==> !(#[trigger] t[m] == "git"@ && t[m + 1] == "commit"@),
        decreases toks.len() - p,
    {
        p += 1;
    }
    proof {
        lemma_index_of_word(t, "git"@, p as int);
        if p < toks.len() {
            assert(t.skip(p as int)[0] == t[p as int]);
        } else {
            assert(t.skip(p as int) =~= Seq::<Seq<char>>::empty());
        }
    }
    if p == toks.len() {
        return false;
    }
    let mut j = p + 1;
    while j < toks.len() && j - p <= 4
        invariant
            t == views(toks@),
            t == words(cmd@),
            index_of_word(t, "git"@) == p as int,
            forall|m: int| 0 <= m && m + 1 < t.len() ==> !(#[trigger] t[m] == "git"@ && t[m + 1] == "commit"@),
            p < j <= p + 5,
            p < toks@.len(),
            forall|m: int| p < m < j ==> t[m] != "commit"@,
        decreases toks.len() - j,
    {
        if str_eq(toks[j].as_str(), "commit") {
            proof {
                assert(t[j as int] == "commit"@);
            }
            return true;
        }
        j += 1;
    }
    false
}

/// The lines of the errors among `diags`, restricted to the files of `only` when given.
pub open spec fn scoped_spec(diags: Seq<Diagnostic>, only: Option<Seq<Seq<char>>>) -> Seq<Seq<char>>
    decreases diags.len(),
{
    if diags.len() == 0 {
        Seq::<Seq<char>>::empty()
    } else {
        let r = scoped_spec(diags.drop_last(), only);
        let d = diags.last();
        if d.level == Level::Error && (match only { Some(set) => set.contains(d.file@), None => true }) {
            r.push(diag_text(d@))
        } else {
            r
        }
    }
}

/// The errors (not warnings) of a lint run, as lines; with `only`, just those in its files
/// (so that agents working in parallel are not blocked by each other's files).
pub fn scoped_errors(diags: Vec<Diagnostic>, only: Option<&Vec<String>>) -> (res: Vec<String>)
    ensures
        views(res@) == scoped_spec(diags@, match only { Some(s) => Some(views(s@)), None => None }),
{
    let ghost o = match only { Some(s) => Some(views(s@)), None => None };
    let mut out: Vec<String> = Vec::new();
    let mut i: usize = 0;
    while i < diags.len()
        invariant
            i <= diags@.len(),
            o == match only { Some(s) => Some(views(s@)), None => None::<Seq<Seq<char>>> },
            views(out@) == scoped_spec(diags@.take(i as int), o),
        decreases diags.len() - i,
    {
        proof {
            assert(diags@.take(i + 1).drop_last() =~= diags@.take(i as int));
            assert(diags@.take(i + 1).last() == diags@[i as int]);
        }
        let d = &diags[i];
        let inside = match only {
            Some(set) => set_contains(set, d.file.as_str()),
            None => true,
        };
        if d.level == Level::Error && inside {
            let ghost before = views(out@);
            let line = d.to_text();
            out.push(line);
            proof {
                assert(views(out@) =~= before.push(diag_text(d@)));
            }
        }
        i += 1;
    }
    proof {
        assert(diags@.take(diags@.len() as int) =~= diags@);
    }
    out
}

/// The errors that block stopping: all but `[unreachable]`, which is passing while agents
/// write in parallel (another one may not have written the edge yet); it blocks a commit.
pub open spec fn stop_blocking_spec(errors: Seq<Seq<char>>) -> Seq<Seq<char>>
    decreases errors.len(),
{
    if errors.len() == 0 {
        Seq::<Seq<char>>::empty()
    } else {
        let r = stop_blocking_spec(errors.drop_last());
        if contains_seq(errors.last(), "[unreachable]"@) { r } else { r.push(errors.last()) }
    }
}

pub fn stop_blocking(errors: Vec<String>) -> (res: Vec<String>)
    ensures
        views(res@) == stop_blocking_spec(views(errors@)),
{
    let ghost ev = views(errors@);
    let mut out: Vec<String> = Vec::new();
    let mut i: usize = 0;
    while i < errors.len()
        invariant
            i <= errors@.len(),
            ev == views(errors@),
            views(out@) == stop_blocking_spec(ev.take(i as int)),
        decreases errors.len() - i,
    {
        proof {
            assert(ev.take(i + 1).drop_last() =~= ev.take(i as int));
            assert(ev.take(i + 1).last() == errors@[i as int]@);
        }
        if !contains_str(errors[i].as_str(), "[unreachable]") {
            let ghost before = views(out@);
            out.push(errors[i].clone());
            proof {
                assert(views(out@) =~= before.push(errors@[i as int]@));
            }
        }
        i += 1;
    }
    proof {
        assert(ev.take(errors@.len() as int) =~= ev);
    }
    out
}

/// The first `n` items of `s` (`iter().take(n)`).
pub open spec fn first_n(s: Seq<Seq<char>>, n: int) -> Seq<Seq<char>> {
    if s.len() <= n { s } else { s.take(n) }
}

/// `  <item>\n` for each item.
pub open spec fn indented_lines(s: Seq<Seq<char>>) -> Seq<char>
    decreases s.len(),
{
    if s.len() == 0 { Seq::<char>::empty() } else { indented_lines(s.drop_last()) + "  "@ + s.last() + "\n"@ }
}

fn push_indented(out: &mut String, items: &Vec<String>, n: usize)
    ensures
        final(out)@ == old(out)@ + indented_lines(first_n(views(items@), n as int)),
{
    let ghost iv = views(items@);
    let mut i: usize = 0;
    while i < items.len() && i < n
        invariant
            i <= items@.len(),
            i <= n,
            iv == views(items@),
            out@ == old(out)@ + indented_lines(iv.take(i as int)),
        decreases items.len() - i,
    {
        proof {
            assert(iv.take(i + 1).drop_last() =~= iv.take(i as int));
            assert(iv.take(i + 1).last() == items@[i as int]@);
        }
        push_str(out, "  ");
        push_str(out, items[i].as_str());
        push_str(out, "\n");
        proof {
            assert(out@ =~= old(out)@ + indented_lines(iv.take(i + 1)));
        }
        i += 1;
    }
    proof {
        if iv.len() <= n {
            assert(iv.take(i as int) =~= iv);
        }
    }
}

/// Why stopping is blocked: the errors in files changed this session, and watched code that
/// changed while the flows did not; `None` when there is nothing to say.
pub open spec fn stop_reason_spec(errors: Seq<Seq<char>>, code: Seq<Seq<char>>, flows_changed: bool, flows_rel: Seq<char>) -> Option<Seq<char>> {
    let a = if errors.len() > 0 {
        "`duflow validate` reports errors in files you changed this session; fix them before stopping:\n"@ + indented_lines(first_n(errors, 20))
    } else {
        Seq::<char>::empty()
    };
    let b = if code.len() > 0 && !flows_changed {
        "Watched source files changed this session but `"@ + flows_rel + "/` did not:\n"@ + indented_lines(first_n(code, 20)) + "Either update the flow graph through the duflow CLI (`duflow brief`/`search` for context, `duflow add|edit|rename|rm` to change, `duflow validate` to check) or state in one sentence why the graph is unaffected, then stop."@
    } else {
        Seq::<char>::empty()
    };
    if a + b == Seq::<char>::empty() { None } else { Some(a + b) }
}

pub fn stop_reason(errors: &Vec<String>, code: &Vec<String>, flows_changed: bool, flows_rel: &str) -> (res: Option<String>)
    ensures
        match res {
            Some(r) => stop_reason_spec(views(errors@), views(code@), flows_changed, flows_rel@) == Some(r@),
            None => stop_reason_spec(views(errors@), views(code@), flows_changed, flows_rel@) is None,
        },
{
    let mut reason = String::new();
    if errors.len() > 0 {
        push_str(&mut reason, "`duflow validate` reports errors in files you changed this session; fix them before stopping:\n");
        push_indented(&mut reason, errors, 20);
    }
    let ghost a = reason@;
    if code.len() > 0 && !flows_changed {
        push_str(&mut reason, "Watched source files changed this session but `");
        push_str(&mut reason, flows_rel);
        push_str(&mut reason, "/` did not:\n");
        push_indented(&mut reason, code, 20);
        push_str(&mut reason, "Either update the flow graph through the duflow CLI (`duflow brief`/`search` for context, `duflow add|edit|rename|rm` to change, `duflow validate` to check) or state in one sentence why the graph is unaffected, then stop.");
    }
    proof {
        let sa = if errors@.len() > 0 { "`duflow validate` reports errors in files you changed this session; fix them before stopping:\n"@ + indented_lines(first_n(views(errors@), 20)) } else { Seq::<char>::empty() };
        let sb = if code@.len() > 0 && !flows_changed {
            "Watched source files changed this session but `"@ + flows_rel@ + "/` did not:\n"@ + indented_lines(first_n(views(code@), 20)) + "Either update the flow graph through the duflow CLI (`duflow brief`/`search` for context, `duflow add|edit|rename|rm` to change, `duflow validate` to check) or state in one sentence why the graph is unaffected, then stop."@
        } else {
            Seq::<char>::empty()
        };
        assert(a =~= sa);
        assert(reason@ =~= sa + sb);
    }
    if reason.as_str().is_empty() {
        proof {
            assert(reason@ =~= Seq::<char>::empty());
        }
        None
    } else {
        Some(reason)
    }
}

/// Why a commit is refused: the first 20 errors.
pub open spec fn deny_reason_spec(errors: Seq<Seq<char>>) -> Seq<char> {
    "`duflow validate` has errors; fix them before committing:\n  "@ + join(first_n(errors, 20), "\n  "@)
}

pub fn deny_reason(errors: &Vec<String>) -> (res: String)
    ensures
        res@ == deny_reason_spec(views(errors@)),
{
    let mut first: Vec<String> = Vec::new();
    let mut i: usize = 0;
    while i < errors.len() && i < 20
        invariant
            i <= errors@.len(),
            i <= 20,
            views(first@) == views(errors@).take(i as int),
        decreases errors.len() - i,
    {
        let ghost before = views(first@);
        first.push(errors[i].clone());
        proof {
            assert(views(first@) =~= before.push(errors@[i as int]@));
            assert(views(errors@).take(i + 1) =~= views(errors@).take(i as int).push(errors@[i as int]@));
        }
        i += 1;
    }
    proof {
        if errors@.len() <= 20 {
            assert(views(errors@).take(i as int) =~= views(errors@));
        }
        assert(views(first@) == first_n(views(errors@), 20));
    }
    let mut s = string_from("`duflow validate` has errors; fix them before committing:\n  ");
    let j = join_strings(&first, "\n  ");
    push_str(&mut s, j.as_str());
    s
}

/// The warning added to a commit when watched code changed and the flows did not.
pub open spec fn drift_warning_spec(code: Seq<Seq<char>>, flows_rel: Seq<char>) -> Seq<char> {
    "duflow: watched files changed this session ("@ + join(first_n(code, 5), ", "@) + ") but `"@ + flows_rel + "/` did not. Make sure the flow graph is updated (or unaffected) before finishing."@
}

pub fn drift_warning(code: &Vec<String>, flows_rel: &str) -> (res: String)
    ensures
        res@ == drift_warning_spec(views(code@), flows_rel@),
{
    let mut first: Vec<String> = Vec::new();
    let mut i: usize = 0;
    while i < code.len() && i < 5
        invariant
            i <= code@.len(),
            i <= 5,
            views(first@) == views(code@).take(i as int),
        decreases code.len() - i,
    {
        let ghost before = views(first@);
        first.push(code[i].clone());
        proof {
            assert(views(first@) =~= before.push(code@[i as int]@));
            assert(views(code@).take(i + 1) =~= views(code@).take(i as int).push(code@[i as int]@));
        }
        i += 1;
    }
    proof {
        if code@.len() <= 5 {
            assert(views(code@).take(i as int) =~= views(code@));
        }
        assert(views(first@) == first_n(views(code@), 5));
    }
    let mut s = string_from("duflow: watched files changed this session (");
    let j = join_strings(&first, ", ");
    push_str(&mut s, j.as_str());
    push_str(&mut s, ") but `");
    push_str(&mut s, flows_rel);
    push_str(&mut s, "/` did not. Make sure the flow graph is updated (or unaffected) before finishing.");
    proof {
        assert(s@ =~= drift_warning_spec(views(code@), flows_rel@));
    }
    s
}

/// `` `w` `` for each watch glob.
pub open spec fn ticked(ws: Seq<Seq<char>>) -> Seq<Seq<char>> {
    ws.map_values(|w: Seq<char>| "`"@ + w + "`"@)
}

/// The context given to the agent when a session starts.
pub open spec fn session_context_spec(name: Seq<char>, flows_rel: Seq<char>, nodes: nat, watch: Seq<Seq<char>>) -> Seq<char> {
    "duflow project `"@ + name + "`: the system flow graph lives in `"@ + flows_rel + "/` ("@ + dec(nodes) + " nodes). Before implementing anything that touches states, triggers, endpoints, checks or outcomes, run `duflow brief <id>` / `duflow search <text>` for context; after the code change, update the graph through the duflow CLI (never edit the .kdl files by hand) and run `duflow validate`."@
        + if watch.len() > 0 { " Files under "@ + join(ticked(watch), ", "@) + " are watched: changing them without updating the graph blocks stopping and committing."@ } else { Seq::<char>::empty() }
}

pub fn session_context(name: &str, flows_rel: &str, nodes: usize, watch: &Vec<String>) -> (res: String)
    ensures
        res@ == session_context_spec(name@, flows_rel@, nodes as nat, views(watch@)),
{
    let mut s = string_from("duflow project `");
    push_str(&mut s, name);
    push_str(&mut s, "`: the system flow graph lives in `");
    push_str(&mut s, flows_rel);
    push_str(&mut s, "/` (");
    let n = dec_string(nodes as u64);
    push_str(&mut s, n.as_str());
    push_str(&mut s, " nodes). Before implementing anything that touches states, triggers, endpoints, checks or outcomes, run `duflow brief <id>` / `duflow search <text>` for context; after the code change, update the graph through the duflow CLI (never edit the .kdl files by hand) and run `duflow validate`.");
    let ghost a = s@;
    if watch.len() > 0 {
        let mut ts: Vec<String> = Vec::new();
        let mut i: usize = 0;
        while i < watch.len()
            invariant
                i <= watch@.len(),
                views(ts@) == ticked(views(watch@)).take(i as int),
            decreases watch.len() - i,
        {
            let mut t = string_from("`");
            push_str(&mut t, watch[i].as_str());
            push_str(&mut t, "`");
            let ghost before = views(ts@);
            ts.push(t);
            proof {
                assert(views(ts@) =~= before.push(ticked(views(watch@))[i as int]));
                assert(ticked(views(watch@)).take(i + 1) =~= ticked(views(watch@)).take(i as int).push(ticked(views(watch@))[i as int]));
            }
            i += 1;
        }
        proof {
            assert(ticked(views(watch@)).take(watch@.len() as int) =~= ticked(views(watch@)));
        }
        push_str(&mut s, " Files under ");
        let j = join_strings(&ts, ", ");
        push_str(&mut s, j.as_str());
        push_str(&mut s, " are watched: changing them without updating the graph blocks stopping and committing.");
    }
    proof {
        assert(s@ =~= session_context_spec(name@, flows_rel@, nodes as nat, views(watch@)));
    }
    s
}

/// The reminder given after a watched file was edited.
pub open spec fn post_tool_context_spec(rel: Seq<char>, flows_rel: Seq<char>) -> Seq<char> {
    "`"@ + rel + "` is in duflow's watch scope. If this change adds/removes/alters a state, trigger, endpoint, check, outcome or variable, reflect it in `"@ + flows_rel + "/` via `duflow add|edit|rename|rm` (see the duflow skill), then run `duflow validate`. If nothing in the flow changed, no action needed."@
}

pub fn post_tool_context(rel: &str, flows_rel: &str) -> (res: String)
    ensures
        res@ == post_tool_context_spec(rel@, flows_rel@),
{
    let mut s = string_from("`");
    push_str(&mut s, rel);
    push_str(&mut s, "` is in duflow's watch scope. If this change adds/removes/alters a state, trigger, endpoint, check, outcome or variable, reflect it in `");
    push_str(&mut s, flows_rel);
    push_str(&mut s, "/` via `duflow add|edit|rename|rm` (see the duflow skill), then run `duflow validate`. If nothing in the flow changed, no action needed.");
    proof {
        assert(s@ =~= post_tool_context_spec(rel@, flows_rel@));
    }
    s
}

/// The flows changed this session: a changed file under `<flows_rel>/`, or the flow files'
/// snapshot differs from the baseline.
pub open spec fn flows_changed_spec(changed: Seq<Seq<char>>, flows_rel: Seq<char>, snapshot_differs: bool) -> bool {
    snapshot_differs || exists|i: int| 0 <= i < changed.len() && is_prefix(flows_rel + "/"@, #[trigger] changed[i])
}

pub fn flows_changed(changed: &Vec<String>, flows_rel: &str, snapshot_differs: bool) -> (res: bool)
    ensures
        res == flows_changed_spec(views(changed@), flows_rel@, snapshot_differs),
{
    let mut prefix = string_from(flows_rel);
    push_str(&mut prefix, "/");
    let mut i: usize = 0;
    while i < changed.len()
        invariant
            i <= changed@.len(),
            prefix@ == flows_rel@ + "/"@,
            forall|m: int| 0 <= m < i ==> !is_prefix(flows_rel@ + "/"@, #[trigger] views(changed@)[m]),
        decreases changed.len() - i,
    {
        if starts_with(changed[i].as_str(), prefix.as_str()) {
            proof {
                assert(views(changed@)[i as int] == changed@[i as int]@);
            }
            return true;
        }
        i += 1;
    }
    snapshot_differs
}

/// A safe file name for a session's baseline: ASCII letters, digits and `-` stay, every
/// other character becomes `_`; then `.json`.
pub open spec fn safe_char(c: char) -> char {
    if crate::text::is_ascii_alnum(c) || c == '-' { c } else { '_' }
}

pub fn baseline_file(session: &str) -> (res: String)
    ensures
        res@ == session@.map_values(|c: char| safe_char(c)) + ".json"@,
{
    let cs = chars_of(session);
    let mut s = String::new();
    let mut i: usize = 0;
    while i < cs.len()
        invariant
            cs@ == session@,
            i <= cs@.len(),
            s@ == cs@.take(i as int).map_values(|c: char| safe_char(c)),
        decreases cs.len() - i,
    {
        let c = cs[i];
        let keep = (c >= 'a' && c <= 'z') || (c >= 'A' && c <= 'Z') || (c >= '0' && c <= '9') || c == '-';
        push_char(&mut s, if keep { c } else { '_' });
        proof {
            assert(cs@.take(i + 1).map_values(|c: char| safe_char(c)) =~= cs@.take(i as int).map_values(|c: char| safe_char(c)).push(safe_char(c)));
        }
        i += 1;
    }
    proof {
        assert(cs@.take(cs@.len() as int) =~= cs@);
    }
    push_str(&mut s, ".json");
    s
}

/// What `globset::Glob::new` says of a pattern: `None` where it reads as a glob, else the
/// error's text.
pub uninterp spec fn glob_error(p: Seq<char>) -> Option<Seq<char>>;

/// `globset::Glob::new(p)`, only to learn whether `p` is a glob. Trusted: the outcome is
/// `glob_error(p@)`, a function of the pattern alone (an error as its `Display` text).
#[verifier::external_body]
fn glob_check(p: &str) -> (res: Option<String>)
    ensures
        ostr(res) == glob_error(p@),
{
    match globset::Glob::new(p) {
        Ok(_) => None,
        Err(e) => Some(e.to_string()),
    }
}

/// Which of `files` the set of `patterns` matches, as `globset` builds and matches it: a
/// flag per file, or the text of the error that building the set gave.
pub uninterp spec fn glob_matches(patterns: Seq<Seq<char>>, files: Seq<Seq<char>>) -> Result<Seq<bool>, Seq<char>>;

/// `globset::GlobSetBuilder` with every pattern added (`Glob::new`), `build`, then
/// `GlobSet::is_match` on each file. Trusted: the outcome is `glob_matches` of the patterns
/// and the files alone, with one flag per file (`map` keeps the files' order and number).
#[verifier::external_body]
fn glob_flags(patterns: &Vec<String>, files: &Vec<String>) -> (res: Result<Vec<bool>, String>)
    requires
        forall|i: int| 0 <= i < patterns@.len() ==> glob_error((#[trigger] patterns@[i])@) is None,
    ensures
        match res {
            Ok(v) => glob_matches(views(patterns@), views(files@)) == Ok::<Seq<bool>, Seq<char>>(v@)
                && v@.len() == files@.len(),
            Err(e) => glob_matches(views(patterns@), views(files@)) == Err::<Seq<bool>, Seq<char>>(e@),
        },
{
    let mut b = globset::GlobSetBuilder::new();
    for p in patterns {
        b.add(globset::Glob::new(p).map_err(|e| e.to_string())?);
    }
    match b.build() {
        Ok(set) => Ok(files.iter().map(|f| set.is_match(f)).collect()),
        Err(e) => Err(e.to_string()),
    }
}

/// The refusal of a pattern that is not a glob.
pub open spec fn bad_glob_msg(p: Seq<char>, cause: Seq<char>) -> Seq<char> {
    "bad watch glob `"@ + p + "`: "@ + cause
}

/// The refusal of the first pattern that is not a glob, if any.
pub open spec fn glob_scan(ps: Seq<Seq<char>>) -> Option<Seq<char>>
    decreases ps.len(),
{
    if ps.len() == 0 {
        None
    } else {
        match glob_scan(ps.drop_last()) {
            Some(m) => Some(m),
            None => match glob_error(ps.last()) {
                Some(c) => Some(bad_glob_msg(ps.last(), c)),
                None => None,
            },
        }
    }
}

/// The files whose flag is set, in order.
pub open spec fn kept(fs: Seq<Seq<char>>, flags: Seq<bool>) -> Seq<Seq<char>>
    decreases fs.len(),
{
    if fs.len() == 0 {
        Seq::empty()
    } else {
        let r = kept(fs.drop_last(), flags);
        if flags[fs.len() - 1] { r.push(fs.last()) } else { r }
    }
}

/// The watched files among `fs`: refused at the first pattern that is not a glob, else
/// those the set of patterns matches.
pub open spec fn watched_spec(ps: Seq<Seq<char>>, fs: Seq<Seq<char>>) -> Result<Seq<Seq<char>>, Seq<char>> {
    match glob_scan(ps) {
        Some(m) => Err(m),
        None => match glob_matches(ps, fs) {
            Ok(flags) => Ok(kept(fs, flags)),
            Err(e) => Err(e),
        },
    }
}

/// The files of `files` (repository-relative) that the watch patterns match, in order.
pub fn watched_files(patterns: &Vec<String>, files: &Vec<String>) -> (res: Result<Vec<String>, String>)
    ensures
        match res {
            Ok(v) => watched_spec(views(patterns@), views(files@)) == Ok::<Seq<Seq<char>>, Seq<char>>(views(v@)),
            Err(m) => watched_spec(views(patterns@), views(files@)) == Err::<Seq<Seq<char>>, Seq<char>>(m@),
        },
{
    let ghost ps = views(patterns@);
    let mut i: usize = 0;
    while i < patterns.len()
        invariant
            i <= patterns@.len(),
            ps == views(patterns@),
            forall|j: int| 0 <= j < i ==> glob_error((#[trigger] patterns@[j])@) is None,
            glob_scan(ps.take(i as int)) is None,
        decreases patterns.len() - i,
    {
        proof {
            assert(ps.take(i + 1).drop_last() =~= ps.take(i as int));
            assert(ps.take(i + 1).last() == patterns@[i as int]@);
        }
        match glob_check(patterns[i].as_str()) {
            Some(c) => {
                let mut m = string_from("bad watch glob `");
                push_str(&mut m, patterns[i].as_str());
                push_str(&mut m, "`: ");
                push_str(&mut m, c.as_str());
                proof {
                    lemma_scan_prefix(ps, i as int + 1);
                    assert(m@ =~= bad_glob_msg(patterns@[i as int]@, c@));
                }
                return Err(m);
            },
            None => {},
        }
        i += 1;
    }
    proof {
        assert(ps.take(ps.len() as int) =~= ps);
    }
    match glob_flags(patterns, files) {
        Err(e) => Err(e),
        Ok(flags) => {
            let ghost fs = views(files@);
            let mut out: Vec<String> = Vec::new();
            let mut k: usize = 0;
            while k < files.len()
                invariant
                    k <= files@.len(),
                    flags@.len() == files@.len(),
                    fs == views(files@),
                    views(out@) == kept(fs.take(k as int), flags@),
                decreases files.len() - k,
            {
                proof {
                    assert(fs.take(k + 1).drop_last() =~= fs.take(k as int));
                    assert(fs.take(k + 1).last() == files@[k as int]@);
                }
                if flags[k] {
                    out.push(files[k].clone());
                    proof {
                        assert(views(out@) =~= kept(fs.take(k as int), flags@).push(files@[k as int]@));
                    }
                }
                k += 1;
            }
            proof {
                assert(fs.take(fs.len() as int) =~= fs);
            }
            Ok(out)
        },
    }
}

/// A refusal among the first patterns stands for all of them.
proof fn lemma_scan_prefix(ps: Seq<Seq<char>>, n: int)
    requires
        0 <= n <= ps.len(),
        glob_scan(ps.take(n)) is Some,
    ensures
        glob_scan(ps) == glob_scan(ps.take(n)),
    decreases ps.len() - n,
{
    if n < ps.len() {
        assert(ps.take(n + 1).drop_last() =~= ps.take(n));
        lemma_scan_prefix(ps, n + 1);
    } else {
        assert(ps.take(n) =~= ps);
    }
}

} // verus!
