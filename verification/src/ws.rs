//! Planning the edits of a workspace of flow files. The caller holds the files as KDL
//! documents that keep comments and spacing; what an edit reads of them is given here as
//! plain values (`Ws`), and each operation is answered with a plan: which nodes, children
//! and entries change, by their index in what was read. The caller carries the plan out on
//! its documents and marks the files the plan names as changed.

use vstd::prelude::*;
use crate::edit::{EditError, EditErrV, Op, OpV, attr_pairs};
use crate::model::{
    Attr, allowed_files_spec, answered, dotted_ident, file_for_id, flat_file, group_prefix, grouped_file,
    is_valid_id, ostr,
};
use crate::text::split_on;
use crate::parse::{KNode, KdlFailure, kdl_document, kdl_nodes, kdl_parse};
use crate::text::{chars_of, is_prefix, is_ws, is_ws_exec, push_str, starts_with, str_eq, string_from, string_of_range};

verus! {

/// An entry of a KDL node: a property (`name=value`) or an argument (no name). `text` is
/// the value as text (a string's content, or how another value prints); `is_str` tells
/// whether the value is a string.
pub struct Ent {
    pub name: Option<String>,
    pub text: String,
    pub is_str: bool,
}

/// A KDL node: its name, its entries in order, and its children if it has a block.
pub struct Tree {
    pub name: String,
    pub ents: Vec<Ent>,
    pub kids: Option<Vec<Tree>>,
}

/// One file: its path under the flows directory and its top-level nodes.
pub struct WsFile {
    pub path: String,
    pub nodes: Vec<Tree>,
}

/// The files of the workspace, in path order.
pub struct Ws {
    pub files: Vec<WsFile>,
}

/// The string value of an entry, if it is a string.
pub open spec fn as_string(e: Ent) -> Option<Seq<char>> {
    if e.is_str { Some(e.text@) } else { None }
}

/// The arguments (unnamed entries) among `es`, in order.
pub open spec fn args_of(es: Seq<Ent>) -> Seq<Ent>
    decreases es.len(),
{
    if es.len() == 0 {
        Seq::<Ent>::empty()
    } else if es.last().name is None {
        args_of(es.drop_last()).push(es.last())
    } else {
        args_of(es.drop_last())
    }
}

/// The first argument's text.
pub open spec fn first_arg(t: Tree) -> Option<Seq<char>> {
    let a = args_of(t.ents@);
    if a.len() > 0 { Some(a[0].text@) } else { None }
}

/// The node kinds.
pub open spec fn is_node_kind(k: Seq<char>) -> bool {
    k == "state"@ || k == "action"@ || k == "call"@ || k == "event"@
}

/// The definition kinds.
pub open spec fn is_def_kind(k: Seq<char>) -> bool {
    k == "var"@ || k == "check"@ || k == "root"@ || k == "perm"@
}

/// Which top-level names a lookup accepts.
pub enum Kinds {
    Nodes,
    Defs,
    All,
    One(String),
}

pub enum KindsV {
    Nodes,
    Defs,
    All,
    One(Seq<char>),
}

impl View for Kinds {
    type V = KindsV;

    open spec fn view(&self) -> KindsV {
        match self {
            Kinds::Nodes => KindsV::Nodes,
            Kinds::Defs => KindsV::Defs,
            Kinds::All => KindsV::All,
            Kinds::One(x) => KindsV::One(x@),
        }
    }
}

pub open spec fn in_kinds(ks: KindsV, k: Seq<char>) -> bool {
    match ks {
        KindsV::Nodes => is_node_kind(k),
        KindsV::Defs => is_def_kind(k),
        KindsV::All => is_node_kind(k) || is_def_kind(k),
        KindsV::One(x) => k == x,
    }
}

/// `t` is a top-level node of one of the kinds `ks` with ID `id`.
pub open spec fn is_top(t: Tree, ks: KindsV, id: Seq<char>) -> bool {
    in_kinds(ks, t.name@) && first_arg(t) == Some(id)
}

/// Index of the first node of `ns` that `is_top`, or -1.
pub open spec fn find_in(ns: Seq<Tree>, ks: KindsV, id: Seq<char>) -> int
    decreases ns.len(),
{
    if ns.len() == 0 {
        -1
    } else {
        let r = find_in(ns.drop_last(), ks, id);
        if r >= 0 { r } else if is_top(ns.last(), ks, id) { ns.len() - 1 } else { -1 }
    }
}

/// The first (file, node) in file order, then node order, that `is_top`.
pub open spec fn find_top_spec(fs: Seq<WsFile>, ks: KindsV, id: Seq<char>) -> Option<(int, int)>
    decreases fs.len(),
{
    if fs.len() == 0 {
        None
    } else {
        let r = find_top_spec(fs.drop_last(), ks, id);
        if r is Some {
            r
        } else {
            let j = find_in(fs.last().nodes@, ks, id);
            if j >= 0 { Some((fs.len() - 1, j)) } else { None }
        }
    }
}

/// The node or definition an edit addresses: nodes are looked up first.
pub open spec fn get_node_spec(ws: Ws, id: Seq<char>) -> Option<(int, int)> {
    match find_top_spec(ws.files@, KindsV::Nodes, id) {
        Some(p) => Some(p),
        None => find_top_spec(ws.files@, KindsV::Defs, id),
    }
}

pub proof fn lemma_find_in(ns: Seq<Tree>, ks: KindsV, id: Seq<char>)
    ensures
        -1 <= find_in(ns, ks, id) < ns.len(),
        find_in(ns, ks, id) >= 0 ==> is_top(ns[find_in(ns, ks, id)], ks, id),
        forall|j: int| 0 <= j < ns.len() && (find_in(ns, ks, id) < 0 || j < find_in(ns, ks, id))
            ==> !is_top(#[trigger] ns[j], ks, id),
    decreases ns.len(),
{
    if ns.len() > 0 {
        let d = ns.drop_last();
        lemma_find_in(d, ks, id);
        assert forall|j: int| 0 <= j < ns.len() && (find_in(ns, ks, id) < 0 || j < find_in(ns, ks, id))
            implies !is_top(#[trigger] ns[j], ks, id) by {
            if j < ns.len() - 1 {
                assert(d[j] == ns[j]);
            }
        }
    }
}

pub proof fn lemma_find_top(fs: Seq<WsFile>, ks: KindsV, id: Seq<char>)
    ensures
        find_top_spec(fs, ks, id) matches Some(p) ==> 0 <= p.0 < fs.len() && 0 <= p.1 < fs[p.0].nodes@.len()
            && is_top(fs[p.0].nodes@[p.1], ks, id),
    decreases fs.len(),
{
    if fs.len() > 0 {
        lemma_find_top(fs.drop_last(), ks, id);
        lemma_find_in(fs.last().nodes@, ks, id);
    }
}

fn as_string_exec(e: &Ent) -> (res: Option<&String>)
    ensures
        match res { Some(s) => as_string(*e) == Some(s@), None => as_string(*e) is None },
{
    if e.is_str { Some(&e.text) } else { None }
}

/// The arguments of a node, in order.
pub fn args(es: &Vec<Ent>) -> (res: Vec<&Ent>)
    ensures
        res@.map_values(|e: &Ent| *e) == args_of(es@),
{
    let mut out: Vec<&Ent> = Vec::new();
    let mut i: usize = 0;
    while i < es.len()
        invariant
            i <= es@.len(),
            out@.map_values(|e: &Ent| *e) == args_of(es@.take(i as int)),
        decreases es.len() - i,
    {
        proof {
            assert(es@.take(i + 1).drop_last() =~= es@.take(i as int));
            assert(es@.take(i + 1).last() == es@[i as int]);
        }
        if es[i].name.is_none() {
            let ghost before = out@.map_values(|e: &Ent| *e);
            out.push(&es[i]);
            proof {
                assert(out@.map_values(|e: &Ent| *e) =~= before.push(es@[i as int]));
            }
        }
        i += 1;
    }
    proof {
        assert(es@.take(es@.len() as int) =~= es@);
    }
    out
}

/// The first argument's text.
pub fn first_arg_exec(t: &Tree) -> (res: Option<&String>)
    ensures
        match res { Some(s) => first_arg(*t) == Some(s@), None => first_arg(*t) is None },
{
    let a = args(&t.ents);
    proof {
        assert(a@.len() == args_of(t.ents@).len());
    }
    if a.len() > 0 {
        proof {
            assert(a@.map_values(|e: &Ent| *e)[0] == *a@[0]);
        }
        Some(&a[0].text)
    } else {
        None
    }
}

fn in_kinds_exec(ks: &Kinds, k: &str) -> (res: bool)
    ensures
        res == in_kinds(ks@, k@),
{
    proof {
        reveal_strlit("state");
        reveal_strlit("action");
        reveal_strlit("call");
        reveal_strlit("event");
        reveal_strlit("var");
        reveal_strlit("check");
        reveal_strlit("root");
        reveal_strlit("perm");
    }
    let node = str_eq(k, "state") || str_eq(k, "action") || str_eq(k, "call") || str_eq(k, "event");
    let def = str_eq(k, "var") || str_eq(k, "check") || str_eq(k, "root") || str_eq(k, "perm");
    match ks {
        Kinds::Nodes => node,
        Kinds::Defs => def,
        Kinds::All => node || def,
        Kinds::One(x) => str_eq(k, x.as_str()),
    }
}

fn is_top_exec(t: &Tree, ks: &Kinds, id: &str) -> (res: bool)
    ensures
        res == is_top(*t, ks@, id@),
{
    if !in_kinds_exec(ks, t.name.as_str()) {
        return false;
    }
    match first_arg_exec(t) {
        Some(a) => str_eq(a.as_str(), id),
        None => false,
    }
}

/// The first (file, node) that is a top-level node of kind `ks` with ID `id`.
pub fn find_top(ws: &Ws, ks: &Kinds, id: &str) -> (res: Option<(usize, usize)>)
    ensures
        match res {
            Some(p) => find_top_spec(ws.files@, ks@, id@) == Some((p.0 as int, p.1 as int)),
            None => find_top_spec(ws.files@, ks@, id@) is None,
        },
{
    let mut f: usize = 0;
    while f < ws.files.len()
        invariant
            f <= ws.files@.len(),
            find_top_spec(ws.files@.take(f as int), ks@, id@) is None,
        decreases ws.files.len() - f,
    {
        let ns = &ws.files[f].nodes;
        let mut j: usize = 0;
        while j < ns.len()
            invariant
                f < ws.files@.len(),
                find_top_spec(ws.files@.take(f as int), ks@, id@) is None,
                ns@ == ws.files@[f as int].nodes@,
                j <= ns@.len(),
                find_in(ns@.take(j as int), ks@, id@) < 0,
            decreases ns.len() - j,
        {
            proof {
                assert(ns@.take(j + 1).drop_last() =~= ns@.take(j as int));
                assert(ns@.take(j + 1).last() == ns@[j as int]);
            }
            if is_top_exec(&ns[j], ks, id) {
                proof {
                    let fs = ws.files@.take(f + 1);
                    assert(fs.drop_last() =~= ws.files@.take(f as int));
                    assert(fs.last() == ws.files@[f as int]);
                    assert(find_in(ns@.take(j + 1), ks@, id@) == j);
                    lemma_find_prefix(ns@, ks@, id@, j + 1);
                    assert(find_in(fs.last().nodes@, ks@, id@) == j);
                    assert(fs.len() == f + 1);
                    assert(find_top_spec(fs.drop_last(), ks@, id@) is None);
                    assert(find_top_spec(fs, ks@, id@) == Some((f as int, j as int)));
                    lemma_find_top_prefix(ws.files@, ks@, id@, f + 1);
                }
                return Some((f, j));
            }
            j += 1;
        }
        proof {
            assert(ns@.take(ns@.len() as int) =~= ns@);
            let fs = ws.files@.take(f + 1);
            assert(fs.drop_last() =~= ws.files@.take(f as int));
            assert(fs.last() == ws.files@[f as int]);
        }
        f += 1;
    }
    proof {
        assert(ws.files@.take(ws.files@.len() as int) =~= ws.files@);
    }
    None
}

/// A match found in a prefix is the match of the whole.
proof fn lemma_find_prefix(ns: Seq<Tree>, ks: KindsV, id: Seq<char>, k: int)
    requires
        0 <= k <= ns.len(),
        find_in(ns.take(k), ks, id) >= 0,
    ensures
        find_in(ns, ks, id) == find_in(ns.take(k), ks, id),
    decreases ns.len() - k,
{
    if k < ns.len() {
        assert(ns.take(k + 1).drop_last() =~= ns.take(k));
        lemma_find_prefix(ns, ks, id, k + 1);
    } else {
        assert(ns.take(k) =~= ns);
    }
}

proof fn lemma_find_top_prefix(fs: Seq<WsFile>, ks: KindsV, id: Seq<char>, k: int)
    requires
        0 <= k <= fs.len(),
        find_top_spec(fs.take(k), ks, id) is Some,
    ensures
        find_top_spec(fs, ks, id) == find_top_spec(fs.take(k), ks, id),
    decreases fs.len() - k,
{
    if k < fs.len() {
        assert(fs.take(k + 1).drop_last() =~= fs.take(k));
        lemma_find_top_prefix(fs, ks, id, k + 1);
    } else {
        assert(fs.take(k) =~= fs);
    }
}

/// The node or definition an edit addresses (nodes first), or `NotFound`.
pub fn get_node(ws: &Ws, id: &str) -> (res: Result<(usize, usize), EditError>)
    ensures
        match res {
            Ok(p) => get_node_spec(*ws, id@) == Some((p.0 as int, p.1 as int)),
            Err(e) => get_node_spec(*ws, id@) is None && e@ == EditErrV::NotFound(id@),
        },
{
    match find_top(ws, &Kinds::Nodes, id) {
        Some(p) => Ok(p),
        None => match find_top(ws, &Kinds::Defs, id) {
            Some(p) => Ok(p),
            None => Err(EditError::NotFound(string_from(id))),
        },
    }
}


/// Index of the first file with path `f`, or -1.
pub open spec fn file_index(fs: Seq<WsFile>, f: Seq<char>) -> int
    decreases fs.len(),
{
    if fs.len() == 0 {
        -1
    } else {
        let r = file_index(fs.drop_last(), f);
        if r >= 0 { r } else if fs.last().path@ == f { fs.len() - 1 } else { -1 }
    }
}

pub open spec fn has_file(ws: Ws, f: Seq<char>) -> bool {
    file_index(ws.files@, f) >= 0
}

/// A node's ID once `ren` (from, to) is renamed: an ID argument that is the string `from`
/// reads `to`.
pub open spec fn first_arg_ren(n: Tree, ren: Option<(Seq<char>, Seq<char>)>) -> Option<Seq<char>> {
    match ren {
        Some(r) => {
            let a = args_of(n.ents@);
            if a.len() > 0 && as_string(a[0]) == Some(r.0) { Some(r.1) } else { first_arg(n) }
        },
        None => first_arg(n),
    }
}

/// The file `f` defines a node whose ID (after the renaming `ren`) starts with `prefix`.
pub open spec fn has_group(ws: Ws, f: Seq<char>, prefix: Seq<char>, ren: Option<(Seq<char>, Seq<char>)>) -> bool {
    let i = file_index(ws.files@, f);
    i >= 0 && exists|j: int| 0 <= j < ws.files@[i].nodes@.len() && group_node(#[trigger] ws.files@[i].nodes@[j], prefix, ren)
}

/// A node whose ID starts with `prefix`.
pub open spec fn group_node(n: Tree, prefix: Seq<char>, ren: Option<(Seq<char>, Seq<char>)>) -> bool {
    is_node_kind(n.name@) && (first_arg_ren(n, ren) matches Some(a) && is_prefix(prefix, a))
}

/// The file a node with ID `id` goes to (see `model::file_for_id`), with the IDs read as
/// after the renaming `ren`.
pub open spec fn file_for_new_spec(ws: Ws, id: Seq<char>, ren: Option<(Seq<char>, Seq<char>)>) -> Seq<char> {
    let segs = split_on(id, '.');
    if segs.len() >= 3 {
        let grouped = grouped_file(segs[0], segs[1]);
        let flat = flat_file(segs[0]);
        if !has_file(ws, grouped) && has_file(ws, flat) && has_group(ws, flat, group_prefix(segs[0], segs[1]), ren) {
            flat
        } else {
            grouped
        }
    } else if segs.len() == 2 {
        let grouped = grouped_file(segs[0], segs[1]);
        if has_file(ws, grouped) { grouped } else { flat_file(segs[0]) }
    } else {
        allowed_files_spec(id)[0]
    }
}

proof fn lemma_file_index(fs: Seq<WsFile>, f: Seq<char>)
    ensures
        -1 <= file_index(fs, f) < fs.len(),
        file_index(fs, f) >= 0 ==> fs[file_index(fs, f)].path@ == f,
        file_index(fs, f) < 0 ==> forall|j: int| 0 <= j < fs.len() ==> (#[trigger] fs[j]).path@ != f,
    decreases fs.len(),
{
    if fs.len() > 0 {
        let d = fs.drop_last();
        lemma_file_index(d, f);
        if file_index(fs, f) < 0 {
            assert forall|j: int| 0 <= j < fs.len() implies (#[trigger] fs[j]).path@ != f by {
                if j < fs.len() - 1 {
                    assert(d[j] == fs[j]);
                }
            }
        }
    }
}

fn file_index_exec(ws: &Ws, f: &str) -> (res: Option<usize>)
    ensures
        match res {
            Some(i) => file_index(ws.files@, f@) == i as int,
            None => file_index(ws.files@, f@) < 0,
        },
{
    let mut i: usize = 0;
    while i < ws.files.len()
        invariant
            i <= ws.files@.len(),
            file_index(ws.files@.take(i as int), f@) < 0,
        decreases ws.files.len() - i,
    {
        proof {
            assert(ws.files@.take(i + 1).drop_last() =~= ws.files@.take(i as int));
            assert(ws.files@.take(i + 1).last() == ws.files@[i as int]);
        }
        if str_eq(ws.files[i].path.as_str(), f) {
            proof {
                lemma_file_index_prefix(ws.files@, f@, i + 1);
            }
            return Some(i);
        }
        i += 1;
    }
    proof {
        assert(ws.files@.take(ws.files@.len() as int) =~= ws.files@);
    }
    None
}

proof fn lemma_file_index_prefix(fs: Seq<WsFile>, f: Seq<char>, k: int)
    requires
        0 <= k <= fs.len(),
        file_index(fs.take(k), f) >= 0,
    ensures
        file_index(fs, f) == file_index(fs.take(k), f),
    decreases fs.len() - k,
{
    if k < fs.len() {
        assert(fs.take(k + 1).drop_last() =~= fs.take(k));
        lemma_file_index_prefix(fs, f, k + 1);
    } else {
        assert(fs.take(k) =~= fs);
    }
}

/// Whether the workspace has the file `f`.
pub fn has_file_exec(ws: &Ws, f: &str) -> (res: bool)
    ensures
        res == has_file(*ws, f@),
{
    file_index_exec(ws, f).is_some()
}

pub open spec fn ren_v(ren: Option<(&str, &str)>) -> Option<(Seq<char>, Seq<char>)> {
    match ren {
        Some(r) => Some((r.0@, r.1@)),
        None => None,
    }
}

/// A node's ID once `ren` is renamed.
fn first_arg_ren_exec<'a>(n: &'a Tree, ren: Option<(&'a str, &'a str)>) -> (res: Option<&'a str>)
    ensures
        match res { Some(a) => first_arg_ren(*n, ren_v(ren)) == Some(a@), None => first_arg_ren(*n, ren_v(ren)) is None },
{
    match first_arg_exec(n) {
        None => None,
        Some(a0) => {
            match ren {
                Some((from, to)) => {
                    let a = args(&n.ents);
                    proof {
                        assert(a@.map_values(|e: &Ent| *e)[0] == *a@[0]);
                    }
                    if as_string_is(a[0], from) { Some(to) } else { Some(a0.as_str()) }
                },
                None => Some(a0.as_str()),
            }
        },
    }
}

/// Whether the file `f` defines a node whose ID (after `ren`) starts with `prefix`.
pub fn has_group_exec(ws: &Ws, f: &str, prefix: &str, ren: Option<(&str, &str)>) -> (res: bool)
    ensures
        res == has_group(*ws, f@, prefix@, ren_v(ren)),
{
    match file_index_exec(ws, f) {
        None => false,
        Some(i) => {
            proof {
                lemma_file_index(ws.files@, f@);
            }
            let ns = &ws.files[i].nodes;
            let mut j: usize = 0;
            while j < ns.len()
                invariant
                    i < ws.files@.len(),
                    file_index(ws.files@, f@) == i,
                    ns@ == ws.files@[i as int].nodes@,
                    j <= ns@.len(),
                    forall|k: int| 0 <= k < j ==> !group_node(#[trigger] ns@[k], prefix@, ren_v(ren)),
                decreases ns.len() - j,
            {
                let n = &ns[j];
                if in_kinds_exec(&Kinds::Nodes, n.name.as_str()) {
                    match first_arg_ren_exec(n, ren) {
                        Some(a) => {
                            if starts_with(a, prefix) {
                                proof {
                                    assert(group_node(ns@[j as int], prefix@, ren_v(ren)));
                                    assert(ws.files@[i as int].nodes@[j as int] == ns@[j as int]);
                                }
                                return true;
                            }
                        },
                        None => {},
                    }
                }
                j += 1;
            }
            false
        },
    }
}

/// The file a node with ID `id` goes to, with IDs read as after the renaming `ren`.
pub fn file_for_new(ws: &Ws, id: &str, ren: Option<(&str, &str)>) -> (res: String)
    ensures
        res@ == file_for_new_spec(*ws, id@, ren_v(ren)),
{
    let fe = |f: &str| -> (r: bool)
        ensures
            r == has_file(*ws, f@),
    {
        has_file_exec(ws, f)
    };
    let hg = |f: &str, p: &str| -> (r: bool)
        ensures
            r == has_group(*ws, f@, p@, ren_v(ren)),
    {
        has_group_exec(ws, f, p, ren)
    };
    let res = file_for_id(id, fe, hg);
    proof {
        let segs = split_on(id@, '.');
        if segs.len() >= 2 {
            let grouped = grouped_file(segs[0], segs[1]);
            let flat = flat_file(segs[0]);
            assert(grouped.len() != flat.len());
            if segs.len() == 2 {
                if has_file(*ws, grouped) {
                    assert(!answered(fe, grouped, false));
                } else {
                    assert(!answered(fe, grouped, true));
                }
            }
        }
    }
    res
}


/// `s` without leading and trailing whitespace (`str::trim`).
pub open spec fn trim_ws(s: Seq<char>) -> Seq<char>
    decreases s.len(),
{
    if s.len() > 0 && is_ws(s[0]) {
        trim_ws(s.drop_first())
    } else if s.len() > 0 && is_ws(s.last()) {
        trim_ws(s.drop_last())
    } else {
        s
    }
}

/// What `kdl::KdlNode::parse` says of a child line: `None` where it parses, else the
/// message of its first diagnostic (empty where it has none).
pub uninterp spec fn kdl_line_failure(line: Seq<char>) -> Option<Seq<char>>;

/// `kdl::KdlNode::parse(line)`, only to learn whether the line is one KDL node. Trusted:
/// the outcome is `kdl_line_failure(line@)`, a function of the text alone.
#[verifier::external_body]
fn kdl_line_check(line: &str) -> (res: Option<String>)
    ensures
        ostr(res) == kdl_line_failure(line@),
{
    match kdl::KdlNode::parse(line) {
        Ok(_) => None,
        Err(e) => Some(e.diagnostics.first().and_then(|d| d.message.clone()).unwrap_or_default()),
    }
}

/// `s.trim()`.
pub fn trim_exec(s: &str) -> (res: String)
    ensures
        res@ == trim_ws(s@),
{
    let cs = chars_of(s);
    let mut a: usize = 0;
    let mut b: usize = cs.len();
    proof {
        assert(cs@.subrange(0, cs@.len() as int) =~= cs@);
    }
    while a < b && is_ws_exec(cs[a])
        invariant
            cs@ == s@,
            a <= b == cs@.len(),
            trim_ws(s@) == trim_ws(cs@.subrange(a as int, b as int)),
        decreases b - a,
    {
        proof {
            assert(cs@.subrange(a as int, b as int).drop_first() =~= cs@.subrange(a + 1, b as int));
        }
        a += 1;
    }
    while a < b && is_ws_exec(cs[b - 1])
        invariant
            cs@ == s@,
            a <= b <= cs@.len(),
            a < b ==> !is_ws(cs@[a as int]),
            trim_ws(s@) == trim_ws(cs@.subrange(a as int, b as int)),
        decreases b - a,
    {
        proof {
            let t = cs@.subrange(a as int, b as int);
            assert(t[0] == cs@[a as int]);
            assert(t.drop_last() =~= cs@.subrange(a as int, b - 1));
        }
        b -= 1;
    }
    proof {
        let t = cs@.subrange(a as int, b as int);
        if t.len() > 0 {
            assert(t[0] == cs@[a as int]);
            assert(t.last() == cs@[b - 1]);
        }
    }
    string_of_range(&cs, a, b)
}

/// `i128::from_str`: an optional sign, then at least one digit, within the range of `i128`.
pub open spec fn i128_value(s: Seq<char>) -> Option<int> {
    let neg = s.len() > 0 && s[0] == '-';
    let d = if s.len() > 0 && (s[0] == '-' || s[0] == '+') { s.drop_first() } else { s };
    if d.len() > 0 && crate::cli::all_digits(d) {
        let v: int = if neg { -(crate::cli::digits_value(d) as int) } else { crate::cli::digits_value(d) as int };
        if i128::MIN <= v <= i128::MAX { Some(v) } else { None }
    } else {
        None
    }
}

proof fn lemma_digits_grow(s: Seq<char>, i: int)
    requires
        0 <= i <= s.len(),
        crate::cli::all_digits(s),
    ensures
        crate::cli::digits_value(s.take(i)) <= crate::cli::digits_value(s),
    decreases s.len() - i,
{
    if i < s.len() {
        lemma_digits_grow(s, i + 1);
        assert(s.take(i + 1).drop_last() =~= s.take(i));
        assert(crate::text::is_ascii_digit(s[i]));
    } else {
        assert(s.take(i) =~= s);
    }
}

/// `s.parse::<i128>().ok()`.
pub fn parse_i128(s: &str) -> (res: Option<i128>)
    ensures
        match i128_value(s@) {
            Some(v) => res == Some(v as i128),
            None => res is None,
        },
{
    let cs = chars_of(s);
    let neg = cs.len() > 0 && cs[0] == '-';
    let start: usize = if cs.len() > 0 && (cs[0] == '-' || cs[0] == '+') { 1 } else { 0 };
    let ghost d = if s@.len() > 0 && (s@[0] == '-' || s@[0] == '+') { s@.drop_first() } else { s@ };
    proof {
        assert(cs@.skip(start as int) =~= d);
    }
    if start >= cs.len() {
        return None;
    }
    // The value is built with the final sign, so that `i128::MIN` can be reached.
    let mut acc: i128 = 0;
    let mut i = start;
    while i < cs.len()
        invariant
            cs@ == s@,
            start <= i <= cs@.len(),
            d == cs@.skip(start as int),
            d == (if s@.len() > 0 && (s@[0] == '-' || s@[0] == '+') { s@.drop_first() } else { s@ }),
            neg == (s@.len() > 0 && s@[0] == '-'),
            d.len() > 0,
            crate::cli::all_digits(d.take(i - start)),
            acc as int == (if neg { -(crate::cli::digits_value(d.take(i - start)) as int) } else { crate::cli::digits_value(d.take(i - start)) as int }),
        decreases cs.len() - i,
    {
        let c = cs[i];
        proof {
            assert(d[i - start] == c);
        }
        if !(c >= '0' && c <= '9') {
            proof {
                assert(!crate::text::is_ascii_digit(d[i - start]));
                assert(!crate::cli::all_digits(d));
            }
            return None;
        }
        let dv = (c as u32 - '0' as u32) as i128;
        proof {
            let t = d.take(i - start + 1);
            assert(t.drop_last() =~= d.take(i - start));
            assert(t.last() == c);
            assert(crate::cli::all_digits(t));
        }
        let next = match acc.checked_mul(10) {
            None => None,
            Some(m) => if neg { m.checked_sub(dv) } else { m.checked_add(dv) },
        };
        match next {
            None => {
                proof {
                    let t = d.take(i - start + 1);
                    assert(crate::cli::digits_value(t) == crate::cli::digits_value(d.take(i - start)) * 10 + dv);
                    if crate::cli::all_digits(d) {
                        lemma_digits_grow(d, i - start + 1);
                    }
                    assert(i128_value(s@) is None);
                }
                return None;
            },
            Some(v) => {
                acc = v;
            },
        }
        i += 1;
    }
    proof {
        assert(d.take(cs@.len() - start) =~= d);
    }
    Some(acc)
}

/// A plan as a value.
pub enum PlanV {
    AddNode { path: Seq<char> },
    SetAttr { file: int, top: int, drop_ents: Seq<bool>, drop_kids: Seq<bool>, push: bool },
    AddChild { file: int, top: int },
    RmKids { file: int, top: int, drop_kids: Seq<bool>, missing: Option<EditErrV> },
    SetKind { file: int, top: int },
    AddDef { path: Seq<char>, ints: Seq<Option<int>> },
}

/// What an operation does, by index into the files and nodes that were read.
pub enum Plan {
    /// Append the new node (built from the operation) to `file`.
    AddNode { path: String },
    /// In node `top` of file `file`: drop the entries and children marked, tidy the
    /// children, then add `key="value"` where `push`.
    SetAttr { file: usize, top: usize, drop_ents: Vec<bool>, drop_kids: Vec<bool>, push: bool },
    /// Add the operation's child line to node `top` of file `file`.
    AddChild { file: usize, top: usize },
    /// Drop the children marked and tidy the rest; where none is marked, `missing` is the
    /// error to report, and the file is not counted as changed.
    RmKids { file: usize, top: usize, drop_kids: Vec<bool>, missing: Option<EditError> },
    /// Give node `top` of file `file` the operation's kind.
    SetKind { file: usize, top: usize },
    /// Append the new definition to `file`; `ints[i]` is the integer that the `i`-th
    /// attribute (a `deny` or `fail` that reads as one) is written as.
    AddDef { path: String, ints: Vec<Option<i128>> },
}

pub open spec fn ints_v(v: Vec<Option<i128>>) -> Seq<Option<int>> {
    v@.map_values(|o: Option<i128>| opt_int(o))
}

impl View for Plan {
    type V = PlanV;

    open spec fn view(&self) -> PlanV {
        match self {
            Plan::AddNode { path } => PlanV::AddNode { path: path@ },
            Plan::SetAttr { file, top, drop_ents, drop_kids, push } => PlanV::SetAttr {
                file: *file as int, top: *top as int, drop_ents: drop_ents@, drop_kids: drop_kids@, push: *push,
            },
            Plan::AddChild { file, top } => PlanV::AddChild { file: *file as int, top: *top as int },
            Plan::RmKids { file, top, drop_kids, missing } => PlanV::RmKids {
                file: *file as int, top: *top as int, drop_kids: drop_kids@,
                missing: match missing { Some(e) => Some(e@), None => None },
            },
            Plan::SetKind { file, top } => PlanV::SetKind { file: *file as int, top: *top as int },
            Plan::AddDef { path, ints } => PlanV::AddDef { path: path@, ints: ints_v(*ints) },
        }
    }
}

/// The node at a position.
pub open spec fn node_at(ws: Ws, p: (int, int)) -> Tree {
    ws.files@[p.0].nodes@[p.1]
}

/// The children of a node (none without a block).
pub open spec fn kids_of(t: Tree) -> Seq<Tree> {
    match t.kids {
        Some(v) => v@,
        None => Seq::<Tree>::empty(),
    }
}

/// The string argument after the first `->` argument.
pub open spec fn arrow_pos(a: Seq<Ent>) -> int
    decreases a.len(),
{
    if a.len() == 0 {
        -1
    } else {
        let r = arrow_pos(a.drop_last());
        if r >= 0 { r } else if as_string(a.last()) == Some("->"@) { a.len() - 1 } else { -1 }
    }
}

pub open spec fn arrow_next(a: Seq<Ent>) -> Option<Seq<char>> {
    let i = arrow_pos(a);
    if 0 <= i && i + 1 < a.len() { as_string(a[i + 1]) } else { None }
}

/// A child line leads to `to`: `-> "to"`, `calls ... "to" ...`, or `on`/`returns`/`check`/
/// `requires ... -> "to"`.
pub open spec fn leads_to(c: Tree, to: Seq<char>) -> bool {
    let a = args_of(c.ents@);
    if c.name@ == "->"@ {
        a.len() > 0 && as_string(a[0]) == Some(to)
    } else if c.name@ == "calls"@ {
        exists|k: int| 0 <= k < a.len() && as_string(#[trigger] a[k]) == Some(to)
    } else if c.name@ == "on"@ || c.name@ == "returns"@ || c.name@ == "check"@ || c.name@ == "requires"@ {
        arrow_next(a) == Some(to)
    } else {
        false
    }
}

/// The first of `cs` whose trimmed text is not one KDL node, with the message.
pub open spec fn first_bad_line(cs: Seq<Seq<char>>) -> Option<(Seq<char>, Seq<char>)>
    decreases cs.len(),
{
    if cs.len() == 0 {
        None
    } else {
        match kdl_line_failure(trim_ws(cs[0])) {
            Some(m) => Some((cs[0], m)),
            None => first_bad_line(cs.drop_first()),
        }
    }
}

pub open spec fn bad_line_msg(line: Seq<char>, m: Seq<char>) -> Seq<char> {
    "could not parse child line `"@ + line + "`: "@ + m
}

pub open spec fn add_node_spec(ws: Ws, kind: Seq<char>, id: Seq<char>, children: Seq<Seq<char>>) -> Result<PlanV, EditErrV> {
    if !is_node_kind(kind) {
        Err(EditErrV::Bad("unknown kind `"@ + kind + "`"@))
    } else if !dotted_ident(id, false) {
        Err(EditErrV::InvalidId(id))
    } else {
        match find_top_spec(ws.files@, KindsV::Nodes, id) {
            Some(p) => Err(EditErrV::Exists(id, ws.files@[p.0].path@)),
            None => match first_bad_line(children) {
                Some(b) => Err(EditErrV::Bad(bad_line_msg(b.0, b.1))),
                None => Ok(PlanV::AddNode { path: file_for_new_spec(ws, id, None) }),
            },
        }
    }
}

pub open spec fn set_attr_spec(ws: Ws, id: Seq<char>, key: Seq<char>, value: Seq<char>) -> Result<PlanV, EditErrV> {
    match get_node_spec(ws, id) {
        None => Err(EditErrV::NotFound(id)),
        Some(p) => {
            let t = node_at(ws, p);
            Ok(PlanV::SetAttr {
                file: p.0, top: p.1,
                drop_ents: t.ents@.map_values(|e: Ent| e.name matches Some(n) && n@ == key),
                drop_kids: kids_of(t).map_values(|c: Tree| c.name@ == key),
                push: value.len() > 0,
            })
        },
    }
}

pub open spec fn add_child_spec(ws: Ws, id: Seq<char>, line: Seq<char>) -> Result<PlanV, EditErrV> {
    match kdl_line_failure(trim_ws(line)) {
        Some(m) => Err(EditErrV::Bad(bad_line_msg(line, m))),
        None => match get_node_spec(ws, id) {
            None => Err(EditErrV::NotFound(id)),
            Some(p) => Ok(PlanV::AddChild { file: p.0, top: p.1 }),
        },
    }
}

/// Removing the children marked `m` from the node at `p`; `what` names them when none is.
pub open spec fn rm_kids_plan(p: (int, int), m: Seq<bool>, what: Seq<char>) -> PlanV {
    PlanV::RmKids {
        file: p.0, top: p.1, drop_kids: m,
        missing: if m.contains(true) { None } else { Some(EditErrV::NotFound(what)) },
    }
}

pub open spec fn rm_edge_spec(ws: Ws, id: Seq<char>, to: Seq<char>) -> Result<PlanV, EditErrV> {
    match get_node_spec(ws, id) {
        None => Err(EditErrV::NotFound(id)),
        Some(p) => Ok(rm_kids_plan(p, kids_of(node_at(ws, p)).map_values(|c: Tree| leads_to(c, to)), id + " → "@ + to)),
    }
}

/// The child is `name` with first argument `arg`.
pub open spec fn is_child(c: Tree, name: Seq<char>, arg: Seq<char>) -> bool {
    c.name@ == name && first_arg(c) == Some(arg)
}

pub open spec fn rm_child_spec(ws: Ws, id: Seq<char>, name: Seq<char>, arg: Seq<char>) -> Result<PlanV, EditErrV> {
    match get_node_spec(ws, id) {
        None => Err(EditErrV::NotFound(id)),
        Some(p) => Ok(rm_kids_plan(p, kids_of(node_at(ws, p)).map_values(|c: Tree| is_child(c, name, arg)),
            id + " › "@ + name + " "@ + arg)),
    }
}

pub open spec fn set_kind_spec(ws: Ws, id: Seq<char>, kind: Seq<char>) -> Result<PlanV, EditErrV> {
    if !is_node_kind(kind) {
        Err(EditErrV::Bad("unknown kind `"@ + kind + "` (state|action|call|event)"@))
    } else {
        match get_node_spec(ws, id) {
            None => Err(EditErrV::NotFound(id)),
            Some(p) => Ok(PlanV::SetKind { file: p.0, top: p.1 }),
        }
    }
}

/// The integer a definition attribute is written as: `deny` and `fail` go unquoted where
/// they read as a number.
pub open spec fn attr_int(kv: (Seq<char>, Seq<char>)) -> Option<int> {
    if kv.0 == "deny"@ || kv.0 == "fail"@ { i128_value(kv.1) } else { None }
}

pub open spec fn add_def_spec(ws: Ws, kind: Seq<char>, file: Seq<char>, id: Seq<char>, attrs: Seq<(Seq<char>, Seq<char>)>) -> Result<PlanV, EditErrV> {
    match find_top_spec(ws.files@, KindsV::One(kind), id) {
        Some(p) => Err(EditErrV::Exists(id, ws.files@[p.0].path@)),
        None => Ok(PlanV::AddDef { path: file, ints: attrs.map_values(|kv: (Seq<char>, Seq<char>)| attr_int(kv)) }),
    }
}


/// `res` is the value `s`.
pub open spec fn answers(res: Result<Plan, EditError>, s: Result<PlanV, EditErrV>) -> bool {
    match res {
        Ok(p) => s == Ok::<PlanV, EditErrV>(p@),
        Err(e) => s == Err::<PlanV, EditErrV>(e@),
    }
}

fn bad_line_error(line: &str, m: &str) -> (res: EditError)
    ensures
        res@ == EditErrV::Bad(bad_line_msg(line@, m@)),
{
    let mut s = string_from("could not parse child line `");
    push_str(&mut s, line);
    push_str(&mut s, "`: ");
    push_str(&mut s, m);
    proof {
        reveal_strlit("could not parse child line `");
        reveal_strlit("`: ");
    }
    EditError::Bad(s)
}

/// The error for the first child line that is not one KDL node.
fn first_bad_child(cs: &Vec<String>) -> (res: Option<EditError>)
    ensures
        match first_bad_line(crate::strset::views(cs@)) {
            Some(b) => res matches Some(e) && e@ == EditErrV::Bad(bad_line_msg(b.0, b.1)),
            None => res is None,
        },
{
    let ghost v = crate::strset::views(cs@);
    let mut i: usize = 0;
    proof {
        assert(v.skip(0) =~= v);
    }
    while i < cs.len()
        invariant
            v == crate::strset::views(cs@),
            i <= cs@.len(),
            first_bad_line(v) == first_bad_line(v.skip(i as int)),
        decreases cs.len() - i,
    {
        proof {
            assert(v.skip(i as int)[0] == cs@[i as int]@);
            assert(v.skip(i as int).drop_first() =~= v.skip(i + 1));
        }
        let t = trim_exec(cs[i].as_str());
        match kdl_line_check(t.as_str()) {
            Some(m) => {
                return Some(bad_line_error(cs[i].as_str(), m.as_str()));
            },
            None => {},
        }
        i += 1;
    }
    proof {
        assert(v.skip(cs@.len() as int) =~= Seq::<Seq<char>>::empty());
    }
    None
}

fn is_node_kind_exec(k: &str) -> (res: bool)
    ensures
        res == is_node_kind(k@),
{
    in_kinds_exec(&Kinds::Nodes, k)
}

/// A new node: the kind must be a node kind, the ID valid and new, each child line one KDL
/// node; the node goes to the file `file_for_new` picks.
pub fn plan_add_node(ws: &Ws, kind: &str, id: &str, children: &Vec<String>) -> (res: Result<Plan, EditError>)
    ensures
        answers(res, add_node_spec(*ws, kind@, id@, crate::strset::views(children@))),
{
    if !is_node_kind_exec(kind) {
        let mut m = string_from("unknown kind `");
        push_str(&mut m, kind);
        push_str(&mut m, "`");
        proof {
            reveal_strlit("unknown kind `");
            reveal_strlit("`");
        }
        return Err(EditError::Bad(m));
    }
    if !is_valid_id(id) {
        return Err(EditError::InvalidId(string_from(id)));
    }
    match find_top(ws, &Kinds::Nodes, id) {
        Some((f, _)) => {
            proof {
                lemma_find_top(ws.files@, KindsV::Nodes, id@);
            }
            return Err(EditError::Exists(string_from(id), ws.files[f].path.clone()));
        },
        None => {},
    }
    match first_bad_child(children) {
        Some(e) => Err(e),
        None => Ok(Plan::AddNode { path: file_for_new(ws, id, None) }),
    }
}

/// The node an edit addresses, as a reference.
fn node_ref(ws: &Ws, p: (usize, usize)) -> (res: &Tree)
    requires
        p.0 < ws.files@.len(),
        p.1 < ws.files@[p.0 as int].nodes@.len(),
    ensures
        *res == node_at(*ws, (p.0 as int, p.1 as int)),
{
    &ws.files[p.0].nodes[p.1]
}


proof fn lemma_get_node(ws: Ws, id: Seq<char>)
    ensures
        get_node_spec(ws, id) matches Some(p) ==> 0 <= p.0 < ws.files@.len() && 0 <= p.1 < ws.files@[p.0].nodes@.len(),
{
    lemma_find_top(ws.files@, KindsV::Nodes, id);
    lemma_find_top(ws.files@, KindsV::Defs, id);
}

/// The marks of the entries named `key`.
fn ents_named(es: &Vec<Ent>, key: &str) -> (res: Vec<bool>)
    ensures
        res@ == es@.map_values(|e: Ent| e.name matches Some(n) && n@ == key@),
{
    let mut out: Vec<bool> = Vec::new();
    let mut i: usize = 0;
    while i < es.len()
        invariant
            i <= es@.len(),
            out@ == es@.take(i as int).map_values(|e: Ent| e.name matches Some(n) && n@ == key@),
        decreases es.len() - i,
    {
        let b = match &es[i].name {
            Some(n) => str_eq(n.as_str(), key),
            None => false,
        };
        out.push(b);
        proof {
            assert(es@.take(i + 1) =~= es@.take(i as int).push(es@[i as int]));
            assert(out@ =~= es@.take(i + 1).map_values(|e: Ent| e.name matches Some(n) && n@ == key@));
        }
        i += 1;
    }
    proof {
        assert(es@.take(es@.len() as int) =~= es@);
    }
    out
}

/// The marks of the children named `key`.
fn kids_named(t: &Tree, key: &str) -> (res: Vec<bool>)
    ensures
        res@ == kids_of(*t).map_values(|c: Tree| c.name@ == key@),
{
    let mut out: Vec<bool> = Vec::new();
    match &t.kids {
        None => {
            proof {
                assert(out@ =~= kids_of(*t).map_values(|c: Tree| c.name@ == key@));
            }
        },
        Some(ks) => {
            let mut i: usize = 0;
            while i < ks.len()
                invariant
                    i <= ks@.len(),
                    out@ == ks@.take(i as int).map_values(|c: Tree| c.name@ == key@),
                decreases ks.len() - i,
            {
                let b = str_eq(ks[i].name.as_str(), key);
                out.push(b);
                proof {
                    assert(ks@.take(i + 1) =~= ks@.take(i as int).push(ks@[i as int]));
                    assert(out@ =~= ks@.take(i + 1).map_values(|c: Tree| c.name@ == key@));
                }
                i += 1;
            }
            proof {
                assert(ks@.take(ks@.len() as int) =~= ks@);
            }
        },
    }
    out
}

/// An attribute set on a node or definition; an empty value only removes it.
pub fn plan_set_attr(ws: &Ws, id: &str, key: &str, value: &str) -> (res: Result<Plan, EditError>)
    ensures
        answers(res, set_attr_spec(*ws, id@, key@, value@)),
{
    let p = match get_node(ws, id) {
        Ok(p) => p,
        Err(e) => {
            return Err(e);
        },
    };
    proof {
        lemma_get_node(*ws, id@);
    }
    let t = node_ref(ws, p);
    let drop_ents = ents_named(&t.ents, key);
    let drop_kids = kids_named(t, key);
    proof {
        reveal_strlit("");
    }
    let push = !str_eq(value, "");
    proof {
        if value@.len() == 0 {
            assert(value@ =~= ""@);
        }
        assert(push == (value@.len() > 0));
        assert(drop_kids@ == kids_of(node_at(*ws, (p.0 as int, p.1 as int))).map_values(|c: Tree| c.name@ == key@));
    }
    Ok(Plan::SetAttr { file: p.0, top: p.1, drop_ents, drop_kids, push })
}

/// A child line added to a node or definition.
pub fn plan_add_child(ws: &Ws, id: &str, line: &str) -> (res: Result<Plan, EditError>)
    ensures
        answers(res, add_child_spec(*ws, id@, line@)),
{
    let t = trim_exec(line);
    match kdl_line_check(t.as_str()) {
        Some(m) => {
            return Err(bad_line_error(line, m.as_str()));
        },
        None => {},
    }
    let p = match get_node(ws, id) {
        Ok(p) => p,
        Err(e) => {
            return Err(e);
        },
    };
    Ok(Plan::AddChild { file: p.0, top: p.1 })
}

/// A kind change; the kind must be a node kind.
pub fn plan_set_kind(ws: &Ws, id: &str, kind: &str) -> (res: Result<Plan, EditError>)
    ensures
        answers(res, set_kind_spec(*ws, id@, kind@)),
{
    if !is_node_kind_exec(kind) {
        let mut m = string_from("unknown kind `");
        push_str(&mut m, kind);
        push_str(&mut m, "` (state|action|call|event)");
        proof {
            reveal_strlit("unknown kind `");
            reveal_strlit("` (state|action|call|event)");
        }
        return Err(EditError::Bad(m));
    }
    let p = match get_node(ws, id) {
        Ok(p) => p,
        Err(e) => {
            return Err(e);
        },
    };
    Ok(Plan::SetKind { file: p.0, top: p.1 })
}


fn as_string_is(e: &Ent, x: &str) -> (res: bool)
    ensures
        res == (as_string(*e) == Some(x@)),
{
    e.is_str && str_eq(e.text.as_str(), x)
}

proof fn lemma_arrow_prefix(a: Seq<Ent>, k: int)
    requires
        0 <= k <= a.len(),
        arrow_pos(a.take(k)) >= 0,
    ensures
        arrow_pos(a) == arrow_pos(a.take(k)),
    decreases a.len() - k,
{
    if k < a.len() {
        assert(a.take(k + 1).drop_last() =~= a.take(k));
        lemma_arrow_prefix(a, k + 1);
    } else {
        assert(a.take(k) =~= a);
    }
}

/// The string argument after the first `->` argument.
fn arrow_next_exec<'a>(a: &Vec<&'a Ent>) -> (res: Option<&'a String>)
    ensures
        match res {
            Some(s) => arrow_next(a@.map_values(|e: &Ent| *e)) == Some(s@),
            None => arrow_next(a@.map_values(|e: &Ent| *e)) is None,
        },
{
    let ghost av = a@.map_values(|e: &Ent| *e);
    proof {
        reveal_strlit("->");
    }
    let mut i: usize = 0;
    while i < a.len()
        invariant
            av == a@.map_values(|e: &Ent| *e),
            i <= a@.len(),
            arrow_pos(av.take(i as int)) < 0,
        decreases a.len() - i,
    {
        proof {
            assert(av.take(i + 1).drop_last() =~= av.take(i as int));
            assert(av.take(i + 1).last() == av[i as int]);
        }
        if as_string_is(a[i], "->") {
            proof {
                assert(arrow_pos(av.take(i + 1)) == i);
                lemma_arrow_prefix(av, i + 1);
            }
            if i + 1 < a.len() {
                return as_string_exec(a[i + 1]);
            }
            return None;
        }
        i += 1;
    }
    proof {
        assert(av.take(av.len() as int) =~= av);
    }
    None
}

/// Whether a child line leads to `to`.
pub fn leads_to_exec(c: &Tree, to: &str) -> (res: bool)
    ensures
        res == leads_to(*c, to@),
{
    let a = args(&c.ents);
    let ghost av = a@.map_values(|e: &Ent| *e);
    proof {
        reveal_strlit("->");
        reveal_strlit("calls");
        reveal_strlit("on");
        reveal_strlit("returns");
        reveal_strlit("check");
        reveal_strlit("requires");
        assert(av.len() == a@.len());
    }
    let n = c.name.as_str();
    if str_eq(n, "->") {
        if a.len() > 0 {
            proof { assert(av[0] == *a@[0]); }
            as_string_is(a[0], to)
        } else {
            false
        }
    } else if str_eq(n, "calls") {
        let mut k: usize = 0;
        while k < a.len()
            invariant
                av == a@.map_values(|e: &Ent| *e),
                av == args_of(c.ents@),
                c.name@ == "calls"@,
                c.name@ != "->"@,
                k <= a@.len(),
                forall|j: int| 0 <= j < k ==> as_string(#[trigger] av[j]) != Some(to@),
            decreases a.len() - k,
        {
            proof { assert(av[k as int] == *a@[k as int]); }
            if as_string_is(a[k], to) {
                proof {
                    assert(as_string(av[k as int]) == Some(to@));
                }
                return true;
            }
            k += 1;
        }
        false
    } else if str_eq(n, "on") || str_eq(n, "returns") || str_eq(n, "check") || str_eq(n, "requires") {
        match arrow_next_exec(&a) {
            Some(t) => str_eq(t.as_str(), to),
            None => false,
        }
    } else {
        false
    }
}

fn missing_error(what: String, any: bool) -> (res: Option<EditError>)
    ensures
        match res { Some(e) => !any && e@ == EditErrV::NotFound(what@), None => any },
{
    if any { None } else { Some(EditError::NotFound(what)) }
}

/// Removing the child lines of a node that lead to `to`.
pub fn plan_rm_edge(ws: &Ws, id: &str, to: &str) -> (res: Result<Plan, EditError>)
    ensures
        answers(res, rm_edge_spec(*ws, id@, to@)),
{
    let p = match get_node(ws, id) {
        Ok(p) => p,
        Err(e) => {
            return Err(e);
        },
    };
    proof {
        lemma_get_node(*ws, id@);
    }
    let t = node_ref(ws, p);
    let ghost ks = kids_of(*t);
    let mut m: Vec<bool> = Vec::new();
    let mut any = false;
    match &t.kids {
        None => {},
        Some(cs) => {
            let mut i: usize = 0;
            while i < cs.len()
                invariant
                    ks == cs@,
                    i <= cs@.len(),
                    m@ == cs@.take(i as int).map_values(|c: Tree| leads_to(c, to@)),
                    any == m@.contains(true),
                decreases cs.len() - i,
            {
                let b = leads_to_exec(&cs[i], to);
                let ghost before = m@;
                m.push(b);
                proof {
                    assert(cs@.take(i + 1) =~= cs@.take(i as int).push(cs@[i as int]));
                    assert(m@ =~= cs@.take(i + 1).map_values(|c: Tree| leads_to(c, to@)));
                    assert(m@ == before.push(b));
                    if b {
                        assert(m@[i as int] == true);
                    }
                    if before.contains(true) {
                        let k = choose|k: int| 0 <= k < before.len() && before[k] == true;
                        assert(m@[k] == true);
                    }
                    if m@.contains(true) && !b {
                        let k = choose|k: int| 0 <= k < m@.len() && m@[k] == true;
                        assert(before[k] == true);
                    }
                }
                any = any || b;
                i += 1;
            }
            proof {
                assert(cs@.take(cs@.len() as int) =~= cs@);
            }
        },
    }
    proof {
        assert(m@ =~= ks.map_values(|c: Tree| leads_to(c, to@)));
    }
    let mut what = string_from(id);
    push_str(&mut what, " → ");
    push_str(&mut what, to);
    proof {
        reveal_strlit(" → ");
    }
    let missing = missing_error(what, any);
    Ok(Plan::RmKids { file: p.0, top: p.1, drop_kids: m, missing })
}

/// Removing the child lines of a node with name `name` and first argument `arg`.
pub fn plan_rm_child(ws: &Ws, id: &str, name: &str, arg: &str) -> (res: Result<Plan, EditError>)
    ensures
        answers(res, rm_child_spec(*ws, id@, name@, arg@)),
{
    let p = match get_node(ws, id) {
        Ok(p) => p,
        Err(e) => {
            return Err(e);
        },
    };
    proof {
        lemma_get_node(*ws, id@);
    }
    let t = node_ref(ws, p);
    let ghost ks = kids_of(*t);
    let mut m: Vec<bool> = Vec::new();
    let mut any = false;
    match &t.kids {
        None => {},
        Some(cs) => {
            let mut i: usize = 0;
            while i < cs.len()
                invariant
                    ks == cs@,
                    i <= cs@.len(),
                    m@ == cs@.take(i as int).map_values(|c: Tree| is_child(c, name@, arg@)),
                    any == m@.contains(true),
                decreases cs.len() - i,
            {
                let b = str_eq(cs[i].name.as_str(), name) && match first_arg_exec(&cs[i]) {
                    Some(a) => str_eq(a.as_str(), arg),
                    None => false,
                };
                let ghost before = m@;
                m.push(b);
                proof {
                    assert(cs@.take(i + 1) =~= cs@.take(i as int).push(cs@[i as int]));
                    assert(m@ =~= cs@.take(i + 1).map_values(|c: Tree| is_child(c, name@, arg@)));
                    assert(m@ == before.push(b));
                    if b {
                        assert(m@[i as int] == true);
                    }
                    if before.contains(true) {
                        let k = choose|k: int| 0 <= k < before.len() && before[k] == true;
                        assert(m@[k] == true);
                    }
                    if m@.contains(true) && !b {
                        let k = choose|k: int| 0 <= k < m@.len() && m@[k] == true;
                        assert(before[k] == true);
                    }
                }
                any = any || b;
                i += 1;
            }
            proof {
                assert(cs@.take(cs@.len() as int) =~= cs@);
            }
        },
    }
    proof {
        assert(m@ =~= ks.map_values(|c: Tree| is_child(c, name@, arg@)));
    }
    let mut what = string_from(id);
    push_str(&mut what, " › ");
    push_str(&mut what, name);
    push_str(&mut what, " ");
    push_str(&mut what, arg);
    proof {
        reveal_strlit(" › ");
        reveal_strlit(" ");
    }
    let missing = missing_error(what, any);
    Ok(Plan::RmKids { file: p.0, top: p.1, drop_kids: m, missing })
}

pub open spec fn opt_int(o: Option<i128>) -> Option<int> {
    match o { Some(n) => Some(n as int), None => None }
}

/// The integers that the attributes of a new definition are written as.
fn attr_ints(attrs: &Vec<Attr>) -> (res: Vec<Option<i128>>)
    ensures
        ints_v(res) == attr_pairs(attrs@).map_values(|kv: (Seq<char>, Seq<char>)| attr_int(kv)),
{
    proof {
        reveal_strlit("deny");
        reveal_strlit("fail");
    }
    let ghost pairs = attr_pairs(attrs@);
    let mut out: Vec<Option<i128>> = Vec::new();
    let mut i: usize = 0;
    while i < attrs.len()
        invariant
            pairs == attr_pairs(attrs@),
            i <= attrs@.len(),
            out@.len() == i,
            forall|j: int| 0 <= j < i ==> opt_int(#[trigger] out@[j]) == attr_int(pairs[j]),
        decreases attrs.len() - i,
    {
        let a = &attrs[i];
        let v = if str_eq(a.key.as_str(), "deny") || str_eq(a.key.as_str(), "fail") {
            parse_i128(a.value.as_str())
        } else {
            None
        };
        proof {
            assert(pairs[i as int] == (a.key@, a.value@));
            assert(opt_int(v) == attr_int(pairs[i as int]));
        }
        out.push(v);
        i += 1;
    }
    proof {
        assert(ints_v(out) =~= pairs.map_values(|kv: (Seq<char>, Seq<char>)| attr_int(kv)));
    }
    out
}

/// A new definition of `kind` in `file`; the ID must be new for that kind.
fn plan_add_def(ws: &Ws, kind: &str, file: String, id: &str, attrs: &Vec<Attr>) -> (res: Result<Plan, EditError>)
    ensures
        answers(res, add_def_spec(*ws, kind@, file@, id@, attr_pairs(attrs@))),
{
    match find_top(ws, &Kinds::One(string_from(kind)), id) {
        Some((f, _)) => {
            proof {
                lemma_find_top(ws.files@, KindsV::One(kind@), id@);
            }
            Err(EditError::Exists(string_from(id), ws.files[f].path.clone()))
        },
        None => Ok(Plan::AddDef { path: file, ints: attr_ints(attrs) }),
    }
}


// ---------------------------------------------------------------------------------------
// Removing a node or definition.

/// `e` is the property `key` with the string value `v`.
pub open spec fn prop_is(e: Ent, key: Seq<char>, v: Seq<char>) -> bool {
    (e.name matches Some(x) && x@ == key) && as_string(e) == Some(v)
}

/// The node has the property `key="v"`.
pub open spec fn prop_eq(n: Tree, key: Seq<char>, v: Seq<char>) -> bool {
    exists|k: int| 0 <= k < n.ents@.len() && prop_is(#[trigger] n.ents@[k], key, v)
}

/// `e` is the property `key` whose string value has `w` among its words.
pub open spec fn word_prop(e: Ent, key: Seq<char>, w: Seq<char>) -> bool {
    (e.name matches Some(x) && x@ == key) && (as_string(e) matches Some(s) && crate::text::words(s).contains(w))
}

/// The node has a space-separated list property `key` with the word `w`.
pub open spec fn prop_has_word(n: Tree, key: Seq<char>, w: Seq<char>) -> bool {
    exists|k: int| 0 <= k < n.ents@.len() && word_prop(#[trigger] n.ents@[k], key, w)
}

/// `e` is a property named `key`.
pub open spec fn named(e: Ent, key: Seq<char>) -> bool {
    e.name matches Some(x) && x@ == key
}

/// Index of the first property named `key`, or -1.
pub open spec fn named_pos(es: Seq<Ent>, key: Seq<char>) -> int
    decreases es.len(),
{
    if es.len() == 0 {
        -1
    } else {
        let r = named_pos(es.drop_last(), key);
        if r >= 0 { r } else if named(es.last(), key) { es.len() - 1 } else { -1 }
    }
}

/// A definition's default failure target: the argument after `->`, else `fail_to=`.
pub open spec fn prop_or_arrow(n: Tree) -> Option<Seq<char>> {
    let a = args_of(n.ents@);
    let i = arrow_pos(a);
    if i >= 0 {
        if i + 1 < a.len() { Some(a[i + 1].text@) } else { None }
    } else {
        let j = named_pos(n.ents@, "fail_to"@);
        if j >= 0 { Some(n.ents@[j].text@) } else { None }
    }
}

/// A `when=` guard that mentions `id`.
pub open spec fn when_mentions(e: Ent, id: Seq<char>) -> bool {
    named(e, "when"@) && (as_string(e) matches Some(w) && crate::expr::idents_from(w, 0).contains(id))
}

/// A child line refers to the removed ID, by the kind removed: a var is set (`sets`) or
/// guarded on; a check is used (`check`); a perm is required (`requires`); a root is
/// referred to by no child line; a node is led to.
pub open spec fn refers(kind: Seq<char>, id: Seq<char>, c: Tree) -> bool {
    if kind == "var"@ {
        (c.name@ == "sets"@ && first_arg(c) == Some(id))
            || exists|k: int| 0 <= k < c.ents@.len() && when_mentions(#[trigger] c.ents@[k], id)
    } else if kind == "check"@ {
        c.name@ == "check"@ && first_arg(c) == Some(id)
    } else if kind == "perm"@ {
        c.name@ == "requires"@ && first_arg(c) == Some(id)
    } else if kind == "root"@ {
        false
    } else {
        leads_to(c, id)
    }
}

/// The ID of a top-level node (empty without an argument).
pub open spec fn nid_of(n: Tree) -> Seq<char> {
    match first_arg(n) {
        Some(a) => a,
        None => Seq::<char>::empty(),
    }
}

/// The references to `id` (of kind `kind`) that one top-level node of file `f` holds.
pub open spec fn top_refs(kind: Seq<char>, id: Seq<char>, f: Seq<char>, n: Tree) -> Seq<Seq<char>> {
    let nid = nid_of(n);
    let name = n.name@;
    let is_node = is_node_kind(kind);
    if name == kind && nid == id {
        Seq::<Seq<char>>::empty()
    } else {
        let here = f + ": "@ + name + " "@ + nid;
        let r1 = if is_node && (name == "root"@ || name == "view"@) && (nid == id || prop_eq(n, "from"@, id) || prop_eq(n, "to"@, id)) {
            seq![here]
        } else {
            Seq::<Seq<char>>::empty()
        };
        let r2 = if is_node && (name == "check"@ || name == "perm"@) && prop_or_arrow(n) == Some(id) {
            seq![here]
        } else {
            Seq::<Seq<char>>::empty()
        };
        let r3 = if kind == "var"@ && name == "check"@ && prop_has_word(n, "reads"@, id) {
            seq![f + ": check "@ + nid + " reads"@]
        } else {
            Seq::<Seq<char>>::empty()
        };
        let r4 = if exists|k: int| 0 <= k < kids_of(n).len() && refers(kind, id, #[trigger] kids_of(n)[k]) {
            seq![f + ": "@ + nid]
        } else {
            Seq::<Seq<char>>::empty()
        };
        r1 + r2 + r3 + r4
    }
}

pub open spec fn file_refs(kind: Seq<char>, id: Seq<char>, f: Seq<char>, ns: Seq<Tree>) -> Seq<Seq<char>>
    decreases ns.len(),
{
    if ns.len() == 0 {
        Seq::<Seq<char>>::empty()
    } else {
        file_refs(kind, id, f, ns.drop_last()) + top_refs(kind, id, f, ns.last())
    }
}

/// All references, file by file in path order, node by node.
pub open spec fn all_refs(kind: Seq<char>, id: Seq<char>, fs: Seq<WsFile>) -> Seq<Seq<char>>
    decreases fs.len(),
{
    if fs.len() == 0 {
        Seq::<Seq<char>>::empty()
    } else {
        all_refs(kind, id, fs.drop_last()) + file_refs(kind, id, fs.last().path@, fs.last().nodes@)
    }
}

/// What becomes of one entry.
pub enum EntEdit {
    Keep,
    Drop,
    /// The entry keeps its name and gets this string value.
    Put(String),
}

pub enum EntEditV {
    Keep,
    Drop,
    Put(Seq<char>),
}

impl View for EntEdit {
    type V = EntEditV;

    open spec fn view(&self) -> EntEditV {
        match self {
            EntEdit::Keep => EntEditV::Keep,
            EntEdit::Drop => EntEditV::Drop,
            EntEdit::Put(v) => EntEditV::Put(v@),
        }
    }
}

/// What becomes of one top-level node: removed (`keep` false), or its entries edited one by
/// one and the children marked dropped.
pub struct TopEdit {
    pub keep: bool,
    pub ents: Vec<EntEdit>,
    pub drop_kids: Vec<bool>,
}

pub struct TopEditV {
    pub keep: bool,
    pub ents: Seq<EntEditV>,
    pub drop_kids: Seq<bool>,
}

impl View for TopEdit {
    type V = TopEditV;

    open spec fn view(&self) -> TopEditV {
        TopEditV { keep: self.keep, ents: self.ents@.map_values(|e: EntEdit| e@), drop_kids: self.drop_kids@ }
    }
}

/// The edits of one file, node by node, and whether it changes.
pub struct FileEdit {
    pub tops: Vec<TopEdit>,
    pub dirty: bool,
}

pub struct FileEditV {
    pub tops: Seq<TopEditV>,
    pub dirty: bool,
}

impl View for FileEdit {
    type V = FileEditV;

    open spec fn view(&self) -> FileEditV {
        FileEditV { tops: self.tops@.map_values(|t: TopEdit| t@), dirty: self.dirty }
    }
}

/// The removal, file by file (parallel to the files read); with `tidy` every node of every
/// file has its children laid out again after the edits.
pub struct RmPlan {
    pub files: Vec<FileEdit>,
    pub tidy: bool,
}

pub struct RmPlanV {
    pub files: Seq<FileEditV>,
    pub tidy: bool,
}

impl View for RmPlan {
    type V = RmPlanV;

    open spec fn view(&self) -> RmPlanV {
        RmPlanV { files: self.files@.map_values(|f: FileEdit| f@), tidy: self.tidy }
    }
}

/// With `force`, a node's `root` line and the views from or to it go too.
pub open spec fn drop_top(kind: Seq<char>, id: Seq<char>, n: Tree) -> bool {
    is_node_kind(kind) && ((n.name@ == "root"@ && first_arg(n) == Some(id))
        || (n.name@ == "view"@ && (prop_eq(n, "from"@, id) || prop_eq(n, "to"@, id))))
}

/// With `force`, a check or perm whose default failure target is the removed node loses it.
pub open spec fn strips_fail(kind: Seq<char>, id: Seq<char>, n: Tree) -> bool {
    is_node_kind(kind) && (n.name@ == "check"@ || n.name@ == "perm"@) && prop_or_arrow(n) == Some(id)
}

/// With `force`, a check that reads the removed var loses the word.
pub open spec fn strips_reads(kind: Seq<char>, id: Seq<char>, n: Tree) -> bool {
    kind == "var"@ && n.name@ == "check"@ && prop_has_word(n, "reads"@, id)
}

/// Index of the first argument `->`, among all entries, or -1.
pub open spec fn ent_arrow_pos(es: Seq<Ent>) -> int
    decreases es.len(),
{
    if es.len() == 0 {
        -1
    } else {
        let r = ent_arrow_pos(es.drop_last());
        if r >= 0 { r } else if es.last().name is None && as_string(es.last()) == Some("->"@) { es.len() - 1 } else { -1 }
    }
}

/// Dropping the `-> "target"` tail and every `fail_to=`.
pub open spec fn fail_edits(es: Seq<Ent>) -> Seq<EntEditV> {
    let i = ent_arrow_pos(es);
    Seq::new(es.len(), |k: int|
        if (i >= 0 && k == i) || (i >= 0 && k == i + 1 && es[k].name is None) || named(es[k], "fail_to"@) {
            EntEditV::Drop
        } else {
            EntEditV::Keep
        })
}

/// The words of `ws` other than `w`.
pub open spec fn without(ws: Seq<Seq<char>>, w: Seq<char>) -> Seq<Seq<char>>
    decreases ws.len(),
{
    if ws.len() == 0 {
        ws
    } else if ws.last() == w {
        without(ws.drop_last(), w)
    } else {
        without(ws.drop_last(), w).push(ws.last())
    }
}

/// The words left in a `key` property once `w` is taken out.
pub open spec fn rest_words(e: Ent, w: Seq<char>) -> Seq<Seq<char>> {
    match as_string(e) {
        Some(s) => without(crate::text::words(s), w),
        None => Seq::<Seq<char>>::empty(),
    }
}

/// Taking `w` out of every `key` property; where one is left empty, all `key` properties go.
pub open spec fn word_edits(es: Seq<Ent>, key: Seq<char>, w: Seq<char>) -> Seq<EntEditV> {
    let empty = exists|k: int| 0 <= k < es.len() && named(#[trigger] es[k], key) && rest_words(es[k], w).len() == 0;
    Seq::new(es.len(), |k: int|
        if !named(es[k], key) {
            EntEditV::Keep
        } else if empty {
            EntEditV::Drop
        } else {
            EntEditV::Put(crate::text::join(rest_words(es[k], w), " "@))
        })
}

pub open spec fn keep_all(n: nat) -> Seq<EntEditV> {
    Seq::new(n, |k: int| EntEditV::Keep)
}

pub open spec fn ent_edits(kind: Seq<char>, id: Seq<char>, n: Tree) -> Seq<EntEditV> {
    if strips_fail(kind, id, n) {
        fail_edits(n.ents@)
    } else if strips_reads(kind, id, n) {
        word_edits(n.ents@, "reads"@, id)
    } else {
        keep_all(n.ents@.len())
    }
}

/// With `force`, the child lines that refer to the removed ID go; for a var only its
/// `sets` lines (a guarded edge stays, its guard is left to lint).
pub open spec fn kid_drops(kind: Seq<char>, id: Seq<char>, n: Tree) -> Seq<bool> {
    kids_of(n).map_values(|c: Tree| refers(kind, id, c) && (kind != "var"@ || c.name@ == "sets"@))
}

/// The definition itself.
pub open spec fn self_top(kind: Seq<char>, id: Seq<char>, n: Tree) -> bool {
    n.name@ == kind && first_arg(n) == Some(id)
}

pub open spec fn top_edit(kind: Seq<char>, id: Seq<char>, force: bool, own: bool, n: Tree) -> TopEditV {
    if force {
        TopEditV {
            keep: !drop_top(kind, id, n) && !(own && self_top(kind, id, n)),
            ents: ent_edits(kind, id, n),
            drop_kids: kid_drops(kind, id, n),
        }
    } else {
        TopEditV {
            keep: !(own && self_top(kind, id, n)),
            ents: keep_all(n.ents@.len()),
            drop_kids: Seq::new(kids_of(n).len(), |k: int| false),
        }
    }
}

/// A forced removal changes the node.
pub open spec fn touches(kind: Seq<char>, id: Seq<char>, n: Tree) -> bool {
    drop_top(kind, id, n) || strips_fail(kind, id, n) || strips_reads(kind, id, n) || kid_drops(kind, id, n).contains(true)
}

pub open spec fn file_edit(kind: Seq<char>, id: Seq<char>, force: bool, own: bool, ns: Seq<Tree>) -> FileEditV {
    FileEditV {
        tops: ns.map_values(|n: Tree| top_edit(kind, id, force, own, n)),
        dirty: own || (force && exists|j: int| 0 <= j < ns.len() && touches(kind, id, #[trigger] ns[j])),
    }
}

/// Removing `id`: without `force` refused while anything refers to it.
pub open spec fn rm_node_spec(ws: Ws, id: Seq<char>, force: bool) -> Result<RmPlanV, EditErrV> {
    match find_top_spec(ws.files@, KindsV::All, id) {
        None => Err(EditErrV::NotFound(id)),
        Some(p) => {
            let kind = node_at(ws, p).name@;
            let refs = all_refs(kind, id, ws.files@);
            if refs.len() > 0 && !force {
                Err(EditErrV::Referenced(id, crate::text::join(refs, ", "@)))
            } else {
                Ok(RmPlanV {
                    files: Seq::new(ws.files@.len(), |f: int| file_edit(kind, id, force, f == p.0, ws.files@[f].nodes@)),
                    tidy: force,
                })
            }
        },
    }
}


fn named_exec(e: &Ent, key: &str) -> (res: bool)
    ensures
        res == named(*e, key@),
{
    match &e.name {
        Some(x) => str_eq(x.as_str(), key),
        None => false,
    }
}

/// Whether the node has the property `key="v"`.
pub fn prop_eq_exec(n: &Tree, key: &str, v: &str) -> (res: bool)
    ensures
        res == prop_eq(*n, key@, v@),
{
    let mut k: usize = 0;
    while k < n.ents.len()
        invariant
            k <= n.ents@.len(),
            forall|j: int| 0 <= j < k ==> !prop_is(#[trigger] n.ents@[j], key@, v@),
        decreases n.ents.len() - k,
    {
        let e = &n.ents[k];
        if named_exec(e, key) && as_string_is(e, v) {
            proof {
                assert(prop_is(n.ents@[k as int], key@, v@));
            }
            return true;
        }
        k += 1;
    }
    false
}

/// Whether `w` is among the words of `s`.
fn has_word_exec(s: &str, w: &str) -> (res: bool)
    ensures
        res == crate::text::words(s@).contains(w@),
{
    let ws = crate::text::split_words(s);
    let ghost v = crate::strset::views(ws@);
    let mut k: usize = 0;
    while k < ws.len()
        invariant
            v == crate::strset::views(ws@),
            v == crate::text::words(s@),
            k <= ws@.len(),
            forall|j: int| 0 <= j < k ==> v[j] != w@,
        decreases ws.len() - k,
    {
        proof {
            assert(v[k as int] == ws@[k as int]@);
        }
        if str_eq(ws[k].as_str(), w) {
            return true;
        }
        k += 1;
    }
    false
}

/// Whether the node has a list property `key` with the word `w`.
pub fn prop_has_word_exec(n: &Tree, key: &str, w: &str) -> (res: bool)
    ensures
        res == prop_has_word(*n, key@, w@),
{
    let mut k: usize = 0;
    while k < n.ents.len()
        invariant
            k <= n.ents@.len(),
            forall|j: int| 0 <= j < k ==> !word_prop(#[trigger] n.ents@[j], key@, w@),
        decreases n.ents.len() - k,
    {
        let e = &n.ents[k];
        if named_exec(e, key) {
            match as_string_exec(e) {
                Some(s) => {
                    if has_word_exec(s.as_str(), w) {
                        proof {
                            assert(word_prop(n.ents@[k as int], key@, w@));
                        }
                        return true;
                    }
                },
                None => {},
            }
        }
        k += 1;
    }
    false
}

proof fn lemma_named_prefix(es: Seq<Ent>, key: Seq<char>, k: int)
    requires
        0 <= k <= es.len(),
        named_pos(es.take(k), key) >= 0,
    ensures
        named_pos(es, key) == named_pos(es.take(k), key),
    decreases es.len() - k,
{
    if k < es.len() {
        assert(es.take(k + 1).drop_last() =~= es.take(k));
        lemma_named_prefix(es, key, k + 1);
    } else {
        assert(es.take(k) =~= es);
    }
}

proof fn lemma_named_pos(es: Seq<Ent>, key: Seq<char>)
    ensures
        -1 <= named_pos(es, key) < es.len(),
    decreases es.len(),
{
    if es.len() > 0 {
        lemma_named_pos(es.drop_last(), key);
    }
}

proof fn lemma_arrow_pos(a: Seq<Ent>)
    ensures
        -1 <= arrow_pos(a) < a.len(),
    decreases a.len(),
{
    if a.len() > 0 {
        lemma_arrow_pos(a.drop_last());
    }
}

/// A definition's default failure target.
pub fn prop_or_arrow_exec(n: &Tree) -> (res: Option<&String>)
    ensures
        match res { Some(t) => prop_or_arrow(*n) == Some(t@), None => prop_or_arrow(*n) is None },
{
    let a = args(&n.ents);
    let ghost av = a@.map_values(|e: &Ent| *e);
    proof {
        reveal_strlit("->");
        reveal_strlit("fail_to");
        lemma_arrow_pos(av);
    }
    let mut i: usize = 0;
    while i < a.len()
        invariant
            av == a@.map_values(|e: &Ent| *e),
            av == args_of(n.ents@),
            i <= a@.len(),
            arrow_pos(av.take(i as int)) < 0,
        decreases a.len() - i,
    {
        proof {
            assert(av.take(i + 1).drop_last() =~= av.take(i as int));
            assert(av.take(i + 1).last() == av[i as int]);
        }
        if as_string_is(a[i], "->") {
            proof {
                assert(arrow_pos(av.take(i + 1)) == i);
                lemma_arrow_prefix(av, i + 1);
            }
            if i + 1 < a.len() {
                proof {
                    assert(av[i + 1] == *a@[i + 1]);
                }
                return Some(&a[i + 1].text);
            }
            return None;
        }
        i += 1;
    }
    proof {
        assert(av.take(av.len() as int) =~= av);
    }
    let mut j: usize = 0;
    while j < n.ents.len()
        invariant
            j <= n.ents@.len(),
            arrow_pos(args_of(n.ents@)) < 0,
            named_pos(n.ents@.take(j as int), "fail_to"@) < 0,
        decreases n.ents.len() - j,
    {
        proof {
            assert(n.ents@.take(j + 1).drop_last() =~= n.ents@.take(j as int));
            assert(n.ents@.take(j + 1).last() == n.ents@[j as int]);
        }
        if named_exec(&n.ents[j], "fail_to") {
            proof {
                assert(named_pos(n.ents@.take(j + 1), "fail_to"@) == j);
                lemma_named_prefix(n.ents@, "fail_to"@, j + 1);
            }
            return Some(&n.ents[j].text);
        }
        j += 1;
    }
    proof {
        assert(n.ents@.take(n.ents@.len() as int) =~= n.ents@);
    }
    None
}

/// Whether a `when=` guard mentions `id`.
fn when_mentions_exec(e: &Ent, id: &str) -> (res: bool)
    ensures
        res == when_mentions(*e, id@),
{
    proof {
        reveal_strlit("when");
    }
    if !named_exec(e, "when") {
        return false;
    }
    match as_string_exec(e) {
        None => false,
        Some(w) => {
            let ids = crate::expr::idents(w.as_str());
            let ghost v = crate::strset::views(ids@);
            let mut k: usize = 0;
            while k < ids.len()
                invariant
                    v == crate::strset::views(ids@),
                    named(*e, "when"@),
                    as_string(*e) == Some(w@),
                    forall|x: Seq<char>| v.contains(x) <==> crate::expr::idents_from(w@, 0).contains(x),
                    k <= ids@.len(),
                    forall|j: int| 0 <= j < k ==> v[j] != id@,
                decreases ids.len() - k,
            {
                proof {
                    assert(v[k as int] == ids@[k as int]@);
                }
                if str_eq(ids[k].as_str(), id) {
                    proof {
                        assert(v.contains(id@));
                    }
                    return true;
                }
                k += 1;
            }
            proof {
                if v.contains(id@) {
                    let j = choose|j: int| 0 <= j < v.len() && v[j] == id@;
                    assert(v[j] != id@);
                }
            }
            false
        },
    }
}

/// Whether a child line refers to the removed `id` of kind `kind`.
pub fn refers_exec(kind: &str, id: &str, c: &Tree) -> (res: bool)
    ensures
        res == refers(kind@, id@, *c),
{
    proof {
        reveal_strlit("var");
        reveal_strlit("sets");
        reveal_strlit("check");
        reveal_strlit("perm");
        reveal_strlit("requires");
        reveal_strlit("root");
    }
    if str_eq(kind, "var") {
        let sets = str_eq(c.name.as_str(), "sets") && match first_arg_exec(c) {
            Some(a) => str_eq(a.as_str(), id),
            None => false,
        };
        if sets {
            return true;
        }
        let mut k: usize = 0;
        while k < c.ents.len()
            invariant
                k <= c.ents@.len(),
                kind@ == "var"@,
                forall|j: int| 0 <= j < k ==> !when_mentions(#[trigger] c.ents@[j], id@),
            decreases c.ents.len() - k,
        {
            if when_mentions_exec(&c.ents[k], id) {
                proof {
                    assert(when_mentions(c.ents@[k as int], id@));
                }
                return true;
            }
            k += 1;
        }
        false
    } else if str_eq(kind, "check") {
        str_eq(c.name.as_str(), "check") && match first_arg_exec(c) {
            Some(a) => str_eq(a.as_str(), id),
            None => false,
        }
    } else if str_eq(kind, "perm") {
        str_eq(c.name.as_str(), "requires") && match first_arg_exec(c) {
            Some(a) => str_eq(a.as_str(), id),
            None => false,
        }
    } else if str_eq(kind, "root") {
        false
    } else {
        leads_to_exec(c, id)
    }
}


fn nid_exec(n: &Tree) -> (res: String)
    ensures
        res@ == nid_of(*n),
{
    match first_arg_exec(n) {
        Some(a) => a.clone(),
        None => String::new(),
    }
}

/// Whether some child line refers to `id`.
fn any_kid_refers(kind: &str, id: &str, n: &Tree) -> (res: bool)
    ensures
        res == exists|k: int| 0 <= k < kids_of(*n).len() && refers(kind@, id@, #[trigger] kids_of(*n)[k]),
{
    match &n.kids {
        None => false,
        Some(cs) => {
            let mut k: usize = 0;
            while k < cs.len()
                invariant
                    cs@ == kids_of(*n),
                    k <= cs@.len(),
                    forall|j: int| 0 <= j < k ==> !refers(kind@, id@, #[trigger] cs@[j]),
                decreases cs.len() - k,
            {
                if refers_exec(kind, id, &cs[k]) {
                    return true;
                }
                k += 1;
            }
            false
        },
    }
}

fn push_string(out: &mut Vec<String>, x: String)
    ensures
        crate::strset::views(final(out)@) == crate::strset::views(old(out)@).push(x@),
{
    let ghost before = crate::strset::views(out@);
    out.push(x);
    proof {
        assert(crate::strset::views(out@) =~= before.push(x@));
    }
}

/// Appends the references that one top-level node holds.
fn top_refs_exec(kind: &str, id: &str, f: &str, n: &Tree, out: &mut Vec<String>)
    ensures
        crate::strset::views(final(out)@) == crate::strset::views(old(out)@) + top_refs(kind@, id@, f@, *n),
{
    proof {
        reveal_strlit(": ");
        reveal_strlit(" ");
        reveal_strlit("root");
        reveal_strlit("view");
        reveal_strlit("from");
        reveal_strlit("to");
        reveal_strlit("check");
        reveal_strlit("perm");
        reveal_strlit("var");
        reveal_strlit("reads");
        reveal_strlit(": check ");
        reveal_strlit(" reads");
    }
    let ghost o = crate::strset::views(out@);
    let nid = nid_exec(n);
    let name = n.name.as_str();
    if str_eq(name, kind) && str_eq(nid.as_str(), id) {
        proof {
            assert(crate::strset::views(out@) =~= o + top_refs(kind@, id@, f@, *n));
        }
        return;
    }
    let is_node = is_node_kind_exec(kind);
    let mut here = string_from(f);
    push_str(&mut here, ": ");
    push_str(&mut here, name);
    push_str(&mut here, " ");
    push_str(&mut here, nid.as_str());
    let ghost r1 = if is_node && (name@ == "root"@ || name@ == "view"@) && (nid@ == id@ || prop_eq(*n, "from"@, id@) || prop_eq(*n, "to"@, id@)) {
        seq![here@]
    } else {
        Seq::<Seq<char>>::empty()
    };
    if is_node && (str_eq(name, "root") || str_eq(name, "view"))
        && (str_eq(nid.as_str(), id) || prop_eq_exec(n, "from", id) || prop_eq_exec(n, "to", id)) {
        push_string(out, here.clone());
    }
    proof {
        assert(crate::strset::views(out@) =~= o + r1);
    }
    let ghost r2 = if is_node && (name@ == "check"@ || name@ == "perm"@) && prop_or_arrow(*n) == Some(id@) {
        seq![here@]
    } else {
        Seq::<Seq<char>>::empty()
    };
    if is_node && (str_eq(name, "check") || str_eq(name, "perm")) {
        match prop_or_arrow_exec(n) {
            Some(t) => {
                if str_eq(t.as_str(), id) {
                    push_string(out, here.clone());
                }
            },
            None => {},
        }
    }
    proof {
        assert(crate::strset::views(out@) =~= o + r1 + r2);
    }
    let ghost r3 = if kind@ == "var"@ && name@ == "check"@ && prop_has_word(*n, "reads"@, id@) {
        seq![f@ + ": check "@ + nid@ + " reads"@]
    } else {
        Seq::<Seq<char>>::empty()
    };
    if str_eq(kind, "var") && str_eq(name, "check") && prop_has_word_exec(n, "reads", id) {
        let mut m = string_from(f);
        push_str(&mut m, ": check ");
        push_str(&mut m, nid.as_str());
        push_str(&mut m, " reads");
        push_string(out, m);
    }
    proof {
        assert(crate::strset::views(out@) =~= o + r1 + r2 + r3);
    }
    if any_kid_refers(kind, id, n) {
        let mut m = string_from(f);
        push_str(&mut m, ": ");
        push_str(&mut m, nid.as_str());
        push_string(out, m);
    }
    proof {
        assert(crate::strset::views(out@) =~= o + top_refs(kind@, id@, f@, *n));
    }
}

/// All references to `id` of kind `kind`, file by file.
fn all_refs_exec(ws: &Ws, kind: &str, id: &str) -> (res: Vec<String>)
    ensures
        crate::strset::views(res@) == all_refs(kind@, id@, ws.files@),
{
    let mut out: Vec<String> = Vec::new();
    let mut f: usize = 0;
    while f < ws.files.len()
        invariant
            f <= ws.files@.len(),
            crate::strset::views(out@) == all_refs(kind@, id@, ws.files@.take(f as int)),
        decreases ws.files.len() - f,
    {
        let file = &ws.files[f];
        let ghost base = crate::strset::views(out@);
        let mut j: usize = 0;
        while j < file.nodes.len()
            invariant
                j <= file.nodes@.len(),
                crate::strset::views(out@) == base + file_refs(kind@, id@, file.path@, file.nodes@.take(j as int)),
            decreases file.nodes.len() - j,
        {
            proof {
                assert(file.nodes@.take(j + 1).drop_last() =~= file.nodes@.take(j as int));
                assert(file.nodes@.take(j + 1).last() == file.nodes@[j as int]);
            }
            top_refs_exec(kind, id, file.path.as_str(), &file.nodes[j], &mut out);
            proof {
                assert(crate::strset::views(out@) =~= base + file_refs(kind@, id@, file.path@, file.nodes@.take(j + 1)));
            }
            j += 1;
        }
        proof {
            assert(file.nodes@.take(file.nodes@.len() as int) =~= file.nodes@);
            let fs = ws.files@.take(f + 1);
            assert(fs.drop_last() =~= ws.files@.take(f as int));
            assert(fs.last() == ws.files@[f as int]);
            assert(crate::strset::views(out@) =~= all_refs(kind@, id@, fs));
        }
        f += 1;
    }
    proof {
        assert(ws.files@.take(ws.files@.len() as int) =~= ws.files@);
    }
    out
}


proof fn lemma_ent_arrow_prefix(es: Seq<Ent>, k: int)
    requires
        0 <= k <= es.len(),
        ent_arrow_pos(es.take(k)) >= 0,
    ensures
        ent_arrow_pos(es) == ent_arrow_pos(es.take(k)),
    decreases es.len() - k,
{
    if k < es.len() {
        assert(es.take(k + 1).drop_last() =~= es.take(k));
        lemma_ent_arrow_prefix(es, k + 1);
    } else {
        assert(es.take(k) =~= es);
    }
}

proof fn lemma_ent_arrow_pos(es: Seq<Ent>)
    ensures
        -1 <= ent_arrow_pos(es) < es.len(),
    decreases es.len(),
{
    if es.len() > 0 {
        lemma_ent_arrow_pos(es.drop_last());
    }
}

/// Index of the first argument `->` among the entries.
fn ent_arrow_exec(es: &Vec<Ent>) -> (res: Option<usize>)
    ensures
        match res { Some(i) => ent_arrow_pos(es@) == i as int, None => ent_arrow_pos(es@) < 0 },
{
    proof {
        reveal_strlit("->");
    }
    let mut i: usize = 0;
    while i < es.len()
        invariant
            i <= es@.len(),
            ent_arrow_pos(es@.take(i as int)) < 0,
        decreases es.len() - i,
    {
        proof {
            assert(es@.take(i + 1).drop_last() =~= es@.take(i as int));
            assert(es@.take(i + 1).last() == es@[i as int]);
        }
        if es[i].name.is_none() && as_string_is(&es[i], "->") {
            proof {
                lemma_ent_arrow_prefix(es@, i + 1);
            }
            return Some(i);
        }
        i += 1;
    }
    proof {
        assert(es@.take(es@.len() as int) =~= es@);
    }
    None
}

pub open spec fn edits_v(v: Seq<EntEdit>) -> Seq<EntEditV> {
    v.map_values(|e: EntEdit| e@)
}

/// Dropping the `-> "target"` tail and every `fail_to=`.
fn fail_edits_exec(es: &Vec<Ent>) -> (res: Vec<EntEdit>)
    ensures
        edits_v(res@) == fail_edits(es@),
{
    proof {
        reveal_strlit("fail_to");
    }
    let arrow = ent_arrow_exec(es);
    let ghost i = ent_arrow_pos(es@);
    let mut out: Vec<EntEdit> = Vec::new();
    let mut k: usize = 0;
    while k < es.len()
        invariant
            k <= es@.len(),
            i == ent_arrow_pos(es@),
            match arrow { Some(a) => i == a as int, None => i < 0 },
            out@.len() == k,
            forall|j: int| 0 <= j < k ==> (#[trigger] out@[j])@ == fail_edits(es@)[j],
        decreases es.len() - k,
    {
        let drop = match arrow {
            Some(a) => k == a || (k > a && k - a == 1 && es[k].name.is_none()),
            None => false,
        } || named_exec(&es[k], "fail_to");
        out.push(if drop { EntEdit::Drop } else { EntEdit::Keep });
        k += 1;
    }
    proof {
        assert(edits_v(out@) =~= fail_edits(es@));
    }
    out
}

/// The words of `s` other than `w`, joined by single spaces, and whether none is left.
fn rest_exec(e: &Ent, w: &str) -> (res: (String, bool))
    ensures
        res.0@ == crate::text::join(rest_words(*e, w@), " "@),
        res.1 == (rest_words(*e, w@).len() == 0),
{
    let mut rest: Vec<String> = Vec::new();
    match as_string_exec(e) {
        None => {},
        Some(s) => {
            let ws = crate::text::split_words(s.as_str());
            let ghost v = crate::strset::views(ws@);
            let mut k: usize = 0;
            while k < ws.len()
                invariant
                    v == crate::strset::views(ws@),
                    k <= ws@.len(),
                    crate::strset::views(rest@) == without(v.take(k as int), w@),
                decreases ws.len() - k,
            {
                proof {
                    assert(v.take(k + 1).drop_last() =~= v.take(k as int));
                    assert(v.take(k + 1).last() == ws@[k as int]@);
                }
                if !str_eq(ws[k].as_str(), w) {
                    push_string(&mut rest, ws[k].clone());
                }
                k += 1;
            }
            proof {
                assert(v.take(v.len() as int) =~= v);
            }
        },
    }
    proof {
        reveal_strlit(" ");
    }
    let j = crate::text::join_strings(&rest, " ");
    proof {
        assert(rest@.map_values(|p: String| p@) =~= crate::strset::views(rest@));
    }
    (j, rest.len() == 0)
}

/// Taking `w` out of every `key` property.
fn word_edits_exec(es: &Vec<Ent>, key: &str, w: &str) -> (res: Vec<EntEdit>)
    ensures
        edits_v(res@) == word_edits(es@, key@, w@),
{
    let mut rests: Vec<(String, bool)> = Vec::new();
    let mut empty = false;
    let mut k: usize = 0;
    while k < es.len()
        invariant
            k <= es@.len(),
            rests@.len() == k,
            forall|j: int| 0 <= j < k && named(es@[j], key@) ==> (#[trigger] rests@[j]).0@ == crate::text::join(rest_words(es@[j], w@), " "@),
            empty == exists|j: int| 0 <= j < k && named(#[trigger] es@[j], key@) && rest_words(es@[j], w@).len() == 0,
        decreases es.len() - k,
    {
        if named_exec(&es[k], key) {
            let r = rest_exec(&es[k], w);
            if r.1 {
                empty = true;
            }
            rests.push(r);
        } else {
            rests.push((String::new(), false));
        }
        proof {
            if named(es@[k as int], key@) && rest_words(es@[k as int], w@).len() == 0 {
                assert(empty);
            }
        }
        k += 1;
    }
    let mut out: Vec<EntEdit> = Vec::new();
    let mut k: usize = 0;
    while k < es.len()
        invariant
            k <= es@.len(),
            rests@.len() == es@.len(),
            forall|j: int| 0 <= j < es@.len() && named(es@[j], key@) ==> (#[trigger] rests@[j]).0@ == crate::text::join(rest_words(es@[j], w@), " "@),
            empty == exists|j: int| 0 <= j < es@.len() && named(#[trigger] es@[j], key@) && rest_words(es@[j], w@).len() == 0,
            out@.len() == k,
            forall|j: int| 0 <= j < k ==> (#[trigger] out@[j])@ == word_edits(es@, key@, w@)[j],
        decreases es.len() - k,
    {
        let e = if !named_exec(&es[k], key) {
            EntEdit::Keep
        } else if empty {
            EntEdit::Drop
        } else {
            EntEdit::Put(rests[k].0.clone())
        };
        out.push(e);
        k += 1;
    }
    proof {
        assert(edits_v(out@) =~= word_edits(es@, key@, w@));
    }
    out
}

fn keep_all_exec(n: usize) -> (res: Vec<EntEdit>)
    ensures
        edits_v(res@) == keep_all(n as nat),
{
    let mut out: Vec<EntEdit> = Vec::new();
    let mut k: usize = 0;
    while k < n
        invariant
            k <= n,
            out@.len() == k,
            forall|j: int| 0 <= j < k ==> (#[trigger] out@[j])@ == EntEditV::Keep,
        decreases n - k,
    {
        out.push(EntEdit::Keep);
        k += 1;
    }
    proof {
        assert(edits_v(out@) =~= keep_all(n as nat));
    }
    out
}


fn strips_fail_exec(kind: &str, id: &str, n: &Tree) -> (res: bool)
    ensures
        res == strips_fail(kind@, id@, *n),
{
    proof {
        reveal_strlit("check");
        reveal_strlit("perm");
    }
    if !(is_node_kind_exec(kind) && (str_eq(n.name.as_str(), "check") || str_eq(n.name.as_str(), "perm"))) {
        return false;
    }
    match prop_or_arrow_exec(n) {
        Some(t) => str_eq(t.as_str(), id),
        None => false,
    }
}

fn strips_reads_exec(kind: &str, id: &str, n: &Tree) -> (res: bool)
    ensures
        res == strips_reads(kind@, id@, *n),
{
    proof {
        reveal_strlit("var");
        reveal_strlit("check");
        reveal_strlit("reads");
    }
    str_eq(kind, "var") && str_eq(n.name.as_str(), "check") && prop_has_word_exec(n, "reads", id)
}

fn drop_top_exec(kind: &str, id: &str, n: &Tree) -> (res: bool)
    ensures
        res == drop_top(kind@, id@, *n),
{
    proof {
        reveal_strlit("root");
        reveal_strlit("view");
        reveal_strlit("from");
        reveal_strlit("to");
    }
    if !is_node_kind_exec(kind) {
        return false;
    }
    let root = str_eq(n.name.as_str(), "root") && match first_arg_exec(n) {
        Some(a) => str_eq(a.as_str(), id),
        None => false,
    };
    root || (str_eq(n.name.as_str(), "view") && (prop_eq_exec(n, "from", id) || prop_eq_exec(n, "to", id)))
}

/// The children dropped by a forced removal, and whether any is.
fn kid_drops_exec(kind: &str, id: &str, n: &Tree) -> (res: (Vec<bool>, bool))
    ensures
        res.0@ == kid_drops(kind@, id@, *n),
        res.1 == kid_drops(kind@, id@, *n).contains(true),
{
    proof {
        reveal_strlit("var");
        reveal_strlit("sets");
    }
    let ghost ks = kids_of(*n);
    let ghost m = kid_drops(kind@, id@, *n);
    let mut out: Vec<bool> = Vec::new();
    let mut any = false;
    match &n.kids {
        None => {},
        Some(cs) => {
            let mut k: usize = 0;
            while k < cs.len()
                invariant
                    cs@ == ks,
                    m == ks.map_values(|c: Tree| refers(kind@, id@, c) && (kind@ != "var"@ || c.name@ == "sets"@)),
                    k <= cs@.len(),
                    out@.len() == k,
                    forall|j: int| 0 <= j < k ==> #[trigger] out@[j] == m[j],
                    any == exists|j: int| 0 <= j < k && out@[j],
                decreases cs.len() - k,
            {
                let b = refers_exec(kind, id, &cs[k]) && (!str_eq(kind, "var") || str_eq(cs[k].name.as_str(), "sets"));
                let ghost before = out@;
                out.push(b);
                proof {
                    assert(out@ == before.push(b));
                    if b {
                        assert(out@[k as int]);
                    }
                    if any {
                        let j = choose|j: int| 0 <= j < k && before[j];
                        assert(out@[j]);
                    }
                    if exists|j: int| 0 <= j < k + 1 && out@[j] {
                        let j = choose|j: int| 0 <= j < k + 1 && out@[j];
                        if j < k {
                            assert(before[j]);
                        }
                    }
                }
                any = any || b;
                k += 1;
            }
        },
    }
    proof {
        assert(out@ =~= m);
        if any {
            let j = choose|j: int| 0 <= j < out@.len() && out@[j];
            assert(m[j] == true);
        }
        if m.contains(true) {
            let j = choose|j: int| 0 <= j < m.len() && m[j] == true;
            assert(out@[j]);
        }
    }
    (out, any)
}

fn false_marks(n: usize) -> (res: Vec<bool>)
    ensures
        res@ == Seq::new(n as nat, |k: int| false),
{
    let mut out: Vec<bool> = Vec::new();
    let mut k: usize = 0;
    while k < n
        invariant
            k <= n,
            out@.len() == k,
            forall|j: int| 0 <= j < k ==> !(#[trigger] out@[j]),
        decreases n - k,
    {
        out.push(false);
        k += 1;
    }
    proof {
        assert(out@ =~= Seq::new(n as nat, |k: int| false));
    }
    out
}

fn kid_count(n: &Tree) -> (res: usize)
    ensures
        res == kids_of(*n).len(),
{
    match &n.kids {
        Some(cs) => cs.len(),
        None => 0,
    }
}

/// What becomes of one top-level node, and whether a forced removal changes it.
fn top_edit_exec(kind: &str, id: &str, force: bool, own: bool, n: &Tree) -> (res: (TopEdit, bool))
    ensures
        res.0@ == top_edit(kind@, id@, force, own, *n),
        force ==> res.1 == touches(kind@, id@, *n),
{
    let own_self = own && str_eq(n.name.as_str(), kind) && match first_arg_exec(n) {
        Some(a) => str_eq(a.as_str(), id),
        None => false,
    };
    if force {
        let dropped = drop_top_exec(kind, id, n);
        let sf = strips_fail_exec(kind, id, n);
        let sr = strips_reads_exec(kind, id, n);
        let ents = if sf {
            fail_edits_exec(&n.ents)
        } else if sr {
            proof {
                reveal_strlit("reads");
            }
            word_edits_exec(&n.ents, "reads", id)
        } else {
            keep_all_exec(n.ents.len())
        };
        let (drop_kids, any) = kid_drops_exec(kind, id, n);
        (TopEdit { keep: !dropped && !own_self, ents, drop_kids }, dropped || sf || sr || any)
    } else {
        let ents = keep_all_exec(n.ents.len());
        let drop_kids = false_marks(kid_count(n));
        (TopEdit { keep: !own_self, ents, drop_kids }, false)
    }
}

/// The edits of one file.
fn file_edit_exec(kind: &str, id: &str, force: bool, own: bool, ns: &Vec<Tree>) -> (res: FileEdit)
    ensures
        res@ == file_edit(kind@, id@, force, own, ns@),
{
    let mut tops: Vec<TopEdit> = Vec::new();
    let mut touched = false;
    let mut j: usize = 0;
    while j < ns.len()
        invariant
            j <= ns@.len(),
            tops@.len() == j,
            forall|k: int| 0 <= k < j ==> (#[trigger] tops@[k])@ == top_edit(kind@, id@, force, own, ns@[k]),
            force ==> touched == exists|k: int| 0 <= k < j && touches(kind@, id@, #[trigger] ns@[k]),
        decreases ns.len() - j,
    {
        let (t, tc) = top_edit_exec(kind, id, force, own, &ns[j]);
        tops.push(t);
        proof {
            if force && tc {
                assert(touches(kind@, id@, ns@[j as int]));
            }
        }
        touched = touched || tc;
        j += 1;
    }
    let res = FileEdit { tops, dirty: own || (force && touched) };
    proof {
        assert(res@.tops =~= ns@.map_values(|n: Tree| top_edit(kind@, id@, force, own, n)));
    }
    res
}

/// Removing the node or definition `id`: refused while anything refers to it unless
/// `force`, which removes the references too.
pub fn plan_rm_node(ws: &Ws, id: &str, force: bool) -> (res: Result<RmPlan, EditError>)
    ensures
        match res {
            Ok(p) => rm_node_spec(*ws, id@, force) == Ok::<RmPlanV, EditErrV>(p@),
            Err(e) => rm_node_spec(*ws, id@, force) == Err::<RmPlanV, EditErrV>(e@),
        },
{
    let (df, dt) = match find_top(ws, &Kinds::All, id) {
        Some(p) => p,
        None => {
            return Err(EditError::NotFound(string_from(id)));
        },
    };
    proof {
        lemma_find_top(ws.files@, KindsV::All, id@);
    }
    let kind = ws.files[df].nodes[dt].name.as_str();
    let refs = all_refs_exec(ws, kind, id);
    if refs.len() > 0 && !force {
        let j = crate::text::join_strings(&refs, ", ");
        proof {
            assert(refs@.map_values(|p: String| p@) =~= crate::strset::views(refs@));
        }
        return Err(EditError::Referenced(string_from(id), j));
    }
    let mut files: Vec<FileEdit> = Vec::new();
    let mut f: usize = 0;
    while f < ws.files.len()
        invariant
            f <= ws.files@.len(),
            df < ws.files@.len(),
            kind@ == node_at(*ws, (df as int, dt as int)).name@,
            files@.len() == f,
            forall|k: int| 0 <= k < f ==> (#[trigger] files@[k])@ == file_edit(kind@, id@, force, k == df, ws.files@[k].nodes@),
        decreases ws.files.len() - f,
    {
        let fe = file_edit_exec(kind, id, force, f == df, &ws.files[f].nodes);
        files.push(fe);
        f += 1;
    }
    let plan = RmPlan { files, tidy: force };
    proof {
        let sp = rm_node_spec(*ws, id@, force);
        assert(find_top_spec(ws.files@, KindsV::All, id@) == Some((df as int, dt as int)));
        assert(sp is Ok);
        assert(plan@.files =~= sp->Ok_0.files);
    }
    Ok(plan)
}


// ---------------------------------------------------------------------------------------
// Renaming an ID.

/// The new value of a string entry when `from` is renamed to `to`: an entry equal to
/// `from` becomes `to`; for a var, `when=` guards get the word replaced too. `None`: the
/// entry stays as it is.
pub open spec fn ent_put(e: Ent, from: Seq<char>, to: Seq<char>, is_var: bool) -> Option<Seq<char>> {
    if !e.is_str {
        None
    } else if e.text@ == from && !is_var {
        Some(to)
    } else if is_var && (e.text@ == from || named(e, "when"@)) {
        let new = if named(e, "when"@) { crate::edit::replace_word_from(e.text@, from, to, 0) } else { to };
        if new != e.text@ { Some(new) } else { None }
    } else {
        None
    }
}

/// One entry to give a new string value: the node is reached by `path` (top-level index,
/// then child indices), the entry by its index.
pub struct Put {
    pub path: Vec<usize>,
    pub ent: usize,
    pub value: String,
}

pub struct PutV {
    pub path: Seq<int>,
    pub ent: int,
    pub value: Seq<char>,
}

impl View for Put {
    type V = PutV;

    open spec fn view(&self) -> PutV {
        PutV { path: self.path@.map_values(|i: usize| i as int), ent: self.ent as int, value: self.value@ }
    }
}

pub open spec fn puts_v(v: Seq<Put>) -> Seq<PutV> {
    v.map_values(|p: Put| p@)
}

/// The puts for the entries `es[k..]` of the node at `path`.
pub open spec fn ents_puts(es: Seq<Ent>, path: Seq<int>, k: int, from: Seq<char>, to: Seq<char>, is_var: bool) -> Seq<PutV>
    decreases es.len() - k,
{
    if k < 0 || k >= es.len() {
        Seq::<PutV>::empty()
    } else {
        let rest = ents_puts(es, path, k + 1, from, to, is_var);
        match ent_put(es[k], from, to, is_var) {
            Some(v) => seq![PutV { path, ent: k, value: v }] + rest,
            None => rest,
        }
    }
}

/// The puts for a node and everything below it, entries first, then each child in order.
pub open spec fn tree_puts(t: Tree, path: Seq<int>, from: Seq<char>, to: Seq<char>, is_var: bool) -> Seq<PutV>
    decreases t, kids_of(t).len() + 1,
{
    ents_puts(t.ents@, path, 0, from, to, is_var) + kids_puts(t, path, 0, from, to, is_var)
}

/// The puts for the children `i..` of `t`.
pub open spec fn kids_puts(t: Tree, path: Seq<int>, i: int, from: Seq<char>, to: Seq<char>, is_var: bool) -> Seq<PutV>
    decreases t, kids_of(t).len() - i,
{
    match t.kids {
        Some(v) => if 0 <= i < v@.len() {
            tree_puts(v@[i], path.push(i), from, to, is_var) + kids_puts(t, path, i + 1, from, to, is_var)
        } else {
            Seq::<PutV>::empty()
        },
        None => Seq::<PutV>::empty(),
    }
}

/// The puts for the top-level nodes `ns[j..]` of one file.
pub open spec fn file_puts(ns: Seq<Tree>, j: int, from: Seq<char>, to: Seq<char>, is_var: bool) -> Seq<PutV>
    decreases ns.len() - j,
{
    if j < 0 || j >= ns.len() {
        Seq::<PutV>::empty()
    } else {
        tree_puts(ns[j], seq![j], from, to, is_var) + file_puts(ns, j + 1, from, to, is_var)
    }
}


pub open spec fn path_v(p: Seq<usize>) -> Seq<int> {
    p.map_values(|i: usize| i as int)
}

/// The new value of one entry under the renaming.
fn ent_put_exec(e: &Ent, from: &str, to: &str, is_var: bool) -> (res: Option<String>)
    requires
        is_var ==> from@.len() > 0,
    ensures
        ostr(res) == ent_put(*e, from@, to@, is_var),
{
    proof {
        reveal_strlit("when");
    }
    if !e.is_str {
        return None;
    }
    let same = str_eq(e.text.as_str(), from);
    if same && !is_var {
        return Some(string_from(to));
    }
    let is_when = named_exec(e, "when");
    if is_var && (same || is_when) {
        let new = if is_when { crate::edit::replace_word(e.text.as_str(), from, to) } else { string_from(to) };
        if str_eq(new.as_str(), e.text.as_str()) { None } else { Some(new) }
    } else {
        None
    }
}

fn push_put(out: &mut Vec<Put>, x: Put)
    ensures
        puts_v(final(out)@) == puts_v(old(out)@) + seq![x@],
{
    let ghost before = puts_v(out@);
    out.push(x);
    proof {
        assert(puts_v(out@) =~= before + seq![x@]);
    }
}

proof fn lemma_ents_puts_step(es: Seq<Ent>, path: Seq<int>, k: int, from: Seq<char>, to: Seq<char>, is_var: bool)
    requires
        0 <= k < es.len(),
    ensures
        ents_puts(es, path, k, from, to, is_var) == (match ent_put(es[k], from, to, is_var) {
            Some(v) => seq![PutV { path, ent: k, value: v }],
            None => Seq::<PutV>::empty(),
        }) + ents_puts(es, path, k + 1, from, to, is_var),
{
    if ent_put(es[k], from, to, is_var) is None {
        assert(Seq::<PutV>::empty() + ents_puts(es, path, k + 1, from, to, is_var) =~= ents_puts(es, path, k + 1, from, to, is_var));
    }
}

/// Appends the puts for the entries of the node at `path`.
fn ents_puts_exec(es: &Vec<Ent>, path: &Vec<usize>, from: &str, to: &str, is_var: bool, out: &mut Vec<Put>)
    requires
        is_var ==> from@.len() > 0,
    ensures
        puts_v(final(out)@) == puts_v(old(out)@) + ents_puts(es@, path_v(path@), 0, from@, to@, is_var),
{
    let ghost o = puts_v(out@);
    let ghost pv = path_v(path@);
    let mut k: usize = 0;
    proof {
        assert(o + ents_puts(es@, pv, 0, from@, to@, is_var) =~= puts_v(out@) + ents_puts(es@, pv, 0, from@, to@, is_var));
    }
    while k < es.len()
        invariant
            is_var ==> from@.len() > 0,
            pv == path_v(path@),
            k <= es@.len(),
            o + ents_puts(es@, pv, 0, from@, to@, is_var) == puts_v(out@) + ents_puts(es@, pv, k as int, from@, to@, is_var),
        decreases es.len() - k,
    {
        proof {
            lemma_ents_puts_step(es@, pv, k as int, from@, to@, is_var);
        }
        let ghost mid = puts_v(out@);
        match ent_put_exec(&es[k], from, to, is_var) {
            Some(v) => {
                let x = Put { path: path.clone(), ent: k, value: v };
                proof {
                    assert(x@.path =~= pv);
                }
                push_put(out, x);
                proof {
                    assert(mid + ents_puts(es@, pv, k as int, from@, to@, is_var)
                        =~= puts_v(out@) + ents_puts(es@, pv, k + 1, from@, to@, is_var));
                }
            },
            None => {},
        }
        k += 1;
    }
    proof {
        assert(ents_puts(es@, pv, k as int, from@, to@, is_var) =~= Seq::<PutV>::empty());
        assert(puts_v(out@) + Seq::<PutV>::empty() =~= puts_v(out@));
    }
}

/// Appends the puts for a node and everything below it.
fn tree_puts_exec(t: &Tree, path: &Vec<usize>, from: &str, to: &str, is_var: bool, out: &mut Vec<Put>)
    requires
        is_var ==> from@.len() > 0,
    ensures
        puts_v(final(out)@) == puts_v(old(out)@) + tree_puts(*t, path_v(path@), from@, to@, is_var),
    decreases *t,
{
    let ghost o = puts_v(out@);
    let ghost pv = path_v(path@);
    ents_puts_exec(&t.ents, path, from, to, is_var, out);
    let ghost mid = puts_v(out@);
    match &t.kids {
        None => {
            proof {
                assert(kids_puts(*t, pv, 0, from@, to@, is_var) =~= Seq::<PutV>::empty());
                assert(puts_v(out@) =~= o + tree_puts(*t, pv, from@, to@, is_var));
            }
        },
        Some(cs) => {
            let mut i: usize = 0;
            proof {
                assert(mid + kids_puts(*t, pv, 0, from@, to@, is_var) =~= puts_v(out@) + kids_puts(*t, pv, 0, from@, to@, is_var));
            }
            while i < cs.len()
                invariant
                    is_var ==> from@.len() > 0,
                    t.kids == Some(*cs),
                    pv == path_v(path@),
                    i <= cs@.len(),
                    mid + kids_puts(*t, pv, 0, from@, to@, is_var) == puts_v(out@) + kids_puts(*t, pv, i as int, from@, to@, is_var),
                decreases cs.len() - i,
            {
                let mut sub = path.clone();
                sub.push(i);
                proof {
                    assert(path_v(sub@) =~= pv.push(i as int));
                }
                let ghost before = puts_v(out@);
                tree_puts_exec(&cs[i], &sub, from, to, is_var, out);
                proof {
                    assert(kids_puts(*t, pv, i as int, from@, to@, is_var)
                        == tree_puts(cs@[i as int], pv.push(i as int), from@, to@, is_var) + kids_puts(*t, pv, i + 1, from@, to@, is_var));
                    assert(before + kids_puts(*t, pv, i as int, from@, to@, is_var)
                        =~= puts_v(out@) + kids_puts(*t, pv, i + 1, from@, to@, is_var));
                }
                i += 1;
            }
            proof {
                assert(kids_puts(*t, pv, i as int, from@, to@, is_var) =~= Seq::<PutV>::empty());
                assert(puts_v(out@) =~= o + tree_puts(*t, pv, from@, to@, is_var));
            }
        },
    }
}

/// The puts for all top-level nodes of one file.
fn file_puts_exec(ns: &Vec<Tree>, from: &str, to: &str, is_var: bool) -> (res: Vec<Put>)
    requires
        is_var ==> from@.len() > 0,
    ensures
        puts_v(res@) == file_puts(ns@, 0, from@, to@, is_var),
{
    let mut out: Vec<Put> = Vec::new();
    let mut j: usize = 0;
    proof {
        assert(puts_v(out@) + file_puts(ns@, 0, from@, to@, is_var) =~= file_puts(ns@, 0, from@, to@, is_var));
    }
    while j < ns.len()
        invariant
            is_var ==> from@.len() > 0,
            j <= ns@.len(),
            file_puts(ns@, 0, from@, to@, is_var) == puts_v(out@) + file_puts(ns@, j as int, from@, to@, is_var),
        decreases ns.len() - j,
    {
        let mut path: Vec<usize> = Vec::new();
        path.push(j);
        proof {
            assert(path_v(path@) =~= seq![j as int]);
        }
        let ghost before = puts_v(out@);
        tree_puts_exec(&ns[j], &path, from, to, is_var, &mut out);
        proof {
            assert(file_puts(ns@, j as int, from@, to@, is_var)
                == tree_puts(ns@[j as int], seq![j as int], from@, to@, is_var) + file_puts(ns@, j + 1, from@, to@, is_var));
            assert(before + file_puts(ns@, j as int, from@, to@, is_var)
                =~= puts_v(out@) + file_puts(ns@, j + 1, from@, to@, is_var));
        }
        j += 1;
    }
    proof {
        assert(file_puts(ns@, j as int, from@, to@, is_var) =~= Seq::<PutV>::empty());
        assert(puts_v(out@) + Seq::<PutV>::empty() =~= puts_v(out@));
    }
    out
}


/// Index of the first node whose ID, after the renaming, is `to`, or -1.
pub open spec fn move_pos(ns: Seq<Tree>, from: Seq<char>, to: Seq<char>) -> int
    decreases ns.len(),
{
    if ns.len() == 0 {
        -1
    } else {
        let r = move_pos(ns.drop_last(), from, to);
        if r >= 0 { r } else if first_arg_ren(ns.last(), Some((from, to))) == Some(to) { ns.len() - 1 } else { -1 }
    }
}

/// The renaming: the puts of every file (parallel to the files read; a file with puts
/// changes), and, for a node that must change files, its file, its index there once the
/// puts are made, and the file it moves to (appended at the end).
pub struct RenamePlan {
    pub puts: Vec<Vec<Put>>,
    pub moved: Option<(usize, usize, String)>,
}

pub struct RenameV {
    pub puts: Seq<Seq<PutV>>,
    pub moved: Option<(int, int, Seq<char>)>,
}

impl View for RenamePlan {
    type V = RenameV;

    open spec fn view(&self) -> RenameV {
        RenameV {
            puts: self.puts@.map_values(|v: Vec<Put>| puts_v(v@)),
            moved: match self.moved { Some(m) => Some((m.0 as int, m.1 as int, m.2@)), None => None },
        }
    }
}

/// The file a renamed node moves to: where a new node with the new ID would go, unless the
/// file it is in is one the new ID may live in.
pub open spec fn new_home(ws: Ws, from: Seq<char>, to: Seq<char>, p: (int, int)) -> Option<Seq<char>> {
    let kind = node_at(ws, p).name@;
    let old_path = ws.files@[p.0].path@;
    let nf = file_for_new_spec(ws, to, Some((from, to)));
    if is_node_kind(kind) && nf != old_path && !allowed_files_spec(to).contains(old_path) { Some(nf) } else { None }
}

/// A rename that has no answer: a var renamed from the empty ID (rewriting its guards
/// would not end), or a node to move that is not found under its new ID (its ID argument
/// is not a string).
pub open spec fn rename_stuck(ws: Ws, from: Seq<char>, to: Seq<char>) -> bool {
    match find_top_spec(ws.files@, KindsV::All, from) {
        Some(p) => if find_top_spec(ws.files@, KindsV::One(node_at(ws, p).name@), to) is Some {
            false
        } else {
            (node_at(ws, p).name@ == "var"@ && from.len() == 0)
                || (new_home(ws, from, to, p) is Some && move_pos(ws.files@[p.0].nodes@, from, to) < 0)
        },
        None => false,
    }
}

/// Renaming `from` to `to`: every string equal to `from` becomes `to` (for a var, also the
/// word in guards), and a node moves to the file its new ID belongs to.
pub open spec fn rename_spec(ws: Ws, from: Seq<char>, to: Seq<char>) -> Result<RenameV, EditErrV> {
    if !dotted_ident(to, false) && !dotted_ident(to, true) {
        Err(EditErrV::InvalidId(to))
    } else {
        match find_top_spec(ws.files@, KindsV::All, from) {
            None => Err(EditErrV::NotFound(from)),
            Some(p) => {
                let kind = node_at(ws, p).name@;
                if find_top_spec(ws.files@, KindsV::One(kind), to) is Some {
                    Err(EditErrV::Exists(to, kind))
                } else {
                    let is_var = kind == "var"@;
                    Ok(RenameV {
                        puts: Seq::new(ws.files@.len(), |f: int| file_puts(ws.files@[f].nodes@, 0, from, to, is_var)),
                        moved: match new_home(ws, from, to, p) {
                            Some(nf) => Some((p.0, move_pos(ws.files@[p.0].nodes@, from, to), nf)),
                            None => None,
                        },
                    })
                }
            },
        }
    }
}

proof fn lemma_move_prefix(ns: Seq<Tree>, from: Seq<char>, to: Seq<char>, k: int)
    requires
        0 <= k <= ns.len(),
        move_pos(ns.take(k), from, to) >= 0,
    ensures
        move_pos(ns, from, to) == move_pos(ns.take(k), from, to),
    decreases ns.len() - k,
{
    if k < ns.len() {
        assert(ns.take(k + 1).drop_last() =~= ns.take(k));
        lemma_move_prefix(ns, from, to, k + 1);
    } else {
        assert(ns.take(k) =~= ns);
    }
}

fn move_pos_exec(ns: &Vec<Tree>, from: &str, to: &str) -> (res: Option<usize>)
    ensures
        match res { Some(j) => move_pos(ns@, from@, to@) == j as int, None => move_pos(ns@, from@, to@) < 0 },
{
    let mut j: usize = 0;
    while j < ns.len()
        invariant
            j <= ns@.len(),
            move_pos(ns@.take(j as int), from@, to@) < 0,
        decreases ns.len() - j,
    {
        proof {
            assert(ns@.take(j + 1).drop_last() =~= ns@.take(j as int));
            assert(ns@.take(j + 1).last() == ns@[j as int]);
        }
        let hit = match first_arg_ren_exec(&ns[j], Some((from, to))) {
            Some(a) => str_eq(a, to),
            None => false,
        };
        if hit {
            proof {
                lemma_move_prefix(ns@, from@, to@, j + 1);
            }
            return Some(j);
        }
        j += 1;
    }
    proof {
        assert(ns@.take(ns@.len() as int) =~= ns@);
    }
    None
}

fn contains_string(v: &Vec<String>, x: &str) -> (res: bool)
    ensures
        res == crate::strset::views(v@).contains(x@),
{
    let ghost w = crate::strset::views(v@);
    let mut k: usize = 0;
    while k < v.len()
        invariant
            w == crate::strset::views(v@),
            k <= v@.len(),
            forall|j: int| 0 <= j < k ==> w[j] != x@,
        decreases v.len() - k,
    {
        proof {
            assert(w[k as int] == v@[k as int]@);
        }
        if str_eq(v[k].as_str(), x) {
            return true;
        }
        k += 1;
    }
    false
}

/// Renaming `from` to `to`; `None` where the rename has no answer (`rename_stuck`).
pub fn plan_rename(ws: &Ws, from: &str, to: &str) -> (res: Option<Result<RenamePlan, EditError>>)
    ensures
        match res {
            None => rename_spec(*ws, from@, to@) is Ok && rename_stuck(*ws, from@, to@),
            Some(Ok(p)) => rename_spec(*ws, from@, to@) == Ok::<RenameV, EditErrV>(p@) && !rename_stuck(*ws, from@, to@),
            Some(Err(e)) => rename_spec(*ws, from@, to@) == Err::<RenameV, EditErrV>(e@),
        },
{
    if !is_valid_id(to) && !crate::model::is_valid_check_id(to) {
        return Some(Err(EditError::InvalidId(string_from(to))));
    }
    let (df, dt) = match find_top(ws, &Kinds::All, from) {
        Some(p) => p,
        None => {
            return Some(Err(EditError::NotFound(string_from(from))));
        },
    };
    proof {
        lemma_find_top(ws.files@, KindsV::All, from@);
        reveal_strlit("var");
    }
    let kind = ws.files[df].nodes[dt].name.clone();
    if find_top(ws, &Kinds::One(kind.clone()), to).is_some() {
        return Some(Err(EditError::Exists(string_from(to), kind)));
    }
    let is_var = str_eq(kind.as_str(), "var");
    proof {
        reveal_strlit("");
    }
    if is_var && str_eq(from, "") {
        return None;
    }
    proof {
        if is_var {
            assert(from@.len() > 0) by {
                if from@.len() == 0 {
                    assert(from@ =~= ""@);
                }
            }
        }
    }
    let mut puts: Vec<Vec<Put>> = Vec::new();
    let mut f: usize = 0;
    while f < ws.files.len()
        invariant
            is_var ==> from@.len() > 0,
            f <= ws.files@.len(),
            puts@.len() == f,
            forall|k: int| 0 <= k < f ==> puts_v((#[trigger] puts@[k])@) == file_puts(ws.files@[k].nodes@, 0, from@, to@, is_var),
        decreases ws.files.len() - f,
    {
        puts.push(file_puts_exec(&ws.files[f].nodes, from, to, is_var));
        f += 1;
    }
    let ghost p = (df as int, dt as int);
    let mut moved: Option<(usize, usize, String)> = None;
    if is_node_kind_exec(kind.as_str()) {
        let nf = file_for_new(ws, to, Some((from, to)));
        let old_path = ws.files[df].path.as_str();
        if !str_eq(nf.as_str(), old_path) && !contains_string(&crate::model::allowed_files(to), old_path) {
            match move_pos_exec(&ws.files[df].nodes, from, to) {
                Some(j) => {
                    moved = Some((df, j, nf));
                },
                None => {
                    proof {
                        assert(new_home(*ws, from@, to@, p) is Some);
                    }
                    return None;
                },
            }
        }
    }
    let plan = RenamePlan { puts, moved };
    proof {
        let sp = rename_spec(*ws, from@, to@);
        assert(sp is Ok);
        assert(plan@.puts =~= sp->Ok_0.puts);
    }
    Some(Ok(plan))
}


// ---------------------------------------------------------------------------------------
// One operation.

/// The plan of one operation.
pub enum OpPlan {
    Simple(Plan),
    Rename(RenamePlan),
    RmNode(RmPlan),
}

pub enum OpPlanV {
    Simple(PlanV),
    Rename(RenameV),
    RmNode(RmPlanV),
}

impl View for OpPlan {
    type V = OpPlanV;

    open spec fn view(&self) -> OpPlanV {
        match self {
            OpPlan::Simple(p) => OpPlanV::Simple(p@),
            OpPlan::Rename(p) => OpPlanV::Rename(p@),
            OpPlan::RmNode(p) => OpPlanV::RmNode(p@),
        }
    }
}

pub open spec fn lift(r: Result<PlanV, EditErrV>) -> Result<OpPlanV, EditErrV> {
    match r {
        Ok(p) => Ok(OpPlanV::Simple(p)),
        Err(e) => Err(e),
    }
}

/// The file of a new var: a dotted ID goes where a node with that ID would, others to
/// `vars.kdl`.
pub open spec fn var_file(ws: Ws, id: Seq<char>) -> Seq<char> {
    if id.contains('.') { file_for_new_spec(ws, id, None) } else { "vars.kdl"@ }
}

/// What an operation does to the workspace, or why it is refused.
pub open spec fn op_spec(ws: Ws, op: OpV) -> Result<OpPlanV, EditErrV> {
    match op {
        OpV::AddNode { kind, id, attrs, children } => lift(add_node_spec(ws, kind, id, children)),
        OpV::SetAttr { id, key, value } => lift(set_attr_spec(ws, id, key, value)),
        OpV::AddChild { id, line } => lift(add_child_spec(ws, id, line)),
        OpV::RmEdge { id, to } => lift(rm_edge_spec(ws, id, to)),
        OpV::RmChild { id, name, arg } => lift(rm_child_spec(ws, id, name, arg)),
        OpV::SetKind { id, kind } => lift(set_kind_spec(ws, id, kind)),
        OpV::Rename { from, to } => match rename_spec(ws, from, to) {
            Ok(p) => Ok(OpPlanV::Rename(p)),
            Err(e) => Err(e),
        },
        OpV::RmNode { id, force } => match rm_node_spec(ws, id, force) {
            Ok(p) => Ok(OpPlanV::RmNode(p)),
            Err(e) => Err(e),
        },
        OpV::AddVar { id, attrs } => if !dotted_ident(id, false) {
            Err(EditErrV::InvalidId(id))
        } else {
            lift(add_def_spec(ws, "var"@, var_file(ws, id), id, attrs))
        },
        OpV::AddCheck { id, attrs } => lift(add_def_spec(ws, "check"@, "checks.kdl"@, id, attrs)),
        OpV::AddPerm { id, attrs } => if !dotted_ident(id, false) {
            Err(EditErrV::InvalidId(id))
        } else {
            lift(add_def_spec(ws, "perm"@, "perms.kdl"@, id, attrs))
        },
        OpV::AddRoot { id, attrs } => lift(add_def_spec(ws, "root"@, "roots.kdl"@, id, attrs)),
    }
}

/// The operations that have no answer on these files (a rename that is `rename_stuck`).
pub open spec fn op_stuck(ws: Ws, op: OpV) -> bool {
    match op {
        OpV::Rename { from, to } => rename_stuck(ws, from, to),
        _ => false,
    }
}

fn simple(r: Result<Plan, EditError>) -> (res: Option<Result<OpPlan, EditError>>)
    ensures
        match res {
            Some(Ok(p)) => r matches Ok(q) && p@ == OpPlanV::Simple(q@),
            Some(Err(e)) => r matches Err(x) && e@ == x@,
            None => false,
        },
{
    match r {
        Ok(p) => Some(Ok(OpPlan::Simple(p))),
        Err(e) => Some(Err(e)),
    }
}

fn has_dot(s: &str) -> (res: bool)
    ensures
        res == s@.contains('.'),
{
    let cs = chars_of(s);
    let mut k: usize = 0;
    while k < cs.len()
        invariant
            cs@ == s@,
            k <= cs@.len(),
            forall|j: int| 0 <= j < k ==> cs@[j] != '.',
        decreases cs.len() - k,
    {
        if cs[k] == '.' {
            return true;
        }
        k += 1;
    }
    false
}

/// The plan of one operation on the workspace as read; `None` where the operation has no
/// answer on these files (`op_stuck`).
pub fn plan_op(ws: &Ws, op: &Op) -> (res: Option<Result<OpPlan, EditError>>)
    ensures
        match res {
            None => op_spec(*ws, op@) is Ok && op_stuck(*ws, op@),
            Some(Ok(p)) => op_spec(*ws, op@) == Ok::<OpPlanV, EditErrV>(p@) && !op_stuck(*ws, op@),
            Some(Err(e)) => op_spec(*ws, op@) == Err::<OpPlanV, EditErrV>(e@),
        },
{
    proof {
        reveal_strlit("var");
        reveal_strlit("check");
        reveal_strlit("perm");
        reveal_strlit("root");
        reveal_strlit("vars.kdl");
        reveal_strlit("checks.kdl");
        reveal_strlit("perms.kdl");
        reveal_strlit("roots.kdl");
    }
    match op {
        Op::AddNode { kind, id, attrs: _, children } => simple(plan_add_node(ws, kind.as_str(), id.as_str(), children)),
        Op::SetAttr { id, key, value } => simple(plan_set_attr(ws, id.as_str(), key.as_str(), value.as_str())),
        Op::AddChild { id, line } => simple(plan_add_child(ws, id.as_str(), line.as_str())),
        Op::RmEdge { id, to } => simple(plan_rm_edge(ws, id.as_str(), to.as_str())),
        Op::RmChild { id, name, arg } => simple(plan_rm_child(ws, id.as_str(), name.as_str(), arg.as_str())),
        Op::SetKind { id, kind } => simple(plan_set_kind(ws, id.as_str(), kind.as_str())),
        Op::Rename { from, to } => match plan_rename(ws, from.as_str(), to.as_str()) {
            None => None,
            Some(Ok(p)) => Some(Ok(OpPlan::Rename(p))),
            Some(Err(e)) => Some(Err(e)),
        },
        Op::RmNode { id, force } => match plan_rm_node(ws, id.as_str(), *force) {
            Ok(p) => Some(Ok(OpPlan::RmNode(p))),
            Err(e) => Some(Err(e)),
        },
        Op::AddVar { id, attrs } => {
            if !is_valid_id(id.as_str()) {
                return Some(Err(EditError::InvalidId(id.clone())));
            }
            let file = if has_dot(id.as_str()) { file_for_new(ws, id.as_str(), None) } else { string_from("vars.kdl") };
            simple(plan_add_def(ws, "var", file, id.as_str(), attrs))
        },
        Op::AddCheck { id, attrs } => simple(plan_add_def(ws, "check", string_from("checks.kdl"), id.as_str(), attrs)),
        Op::AddPerm { id, attrs } => {
            if !is_valid_id(id.as_str()) {
                return Some(Err(EditError::InvalidId(id.clone())));
            }
            simple(plan_add_def(ws, "perm", string_from("perms.kdl"), id.as_str(), attrs))
        },
        Op::AddRoot { id, attrs } => simple(plan_add_def(ws, "root", string_from("roots.kdl"), id.as_str(), attrs)),
    }
}


// ---------------------------------------------------------------------------------------
// Laying out children after an edit.

/// The spacing of one child line: text before it, its terminator, and text after it.
pub struct Fmt {
    pub leading: String,
    pub terminator: String,
    pub trailing: String,
}

pub struct FmtV {
    pub leading: Seq<char>,
    pub terminator: Seq<char>,
    pub trailing: Seq<char>,
}

impl View for Fmt {
    type V = FmtV;

    open spec fn view(&self) -> FmtV {
        FmtV { leading: self.leading@, terminator: self.terminator@, trailing: self.trailing@ }
    }
}

pub open spec fn ends_nl(s: Seq<char>) -> bool {
    s.len() > 0 && s.last() == '\n'
}

/// Each child on a line of its own: one that does not start on a new line gets a line
/// break before it, and every terminator holds a line break (`prev`: the text before the
/// first child ends a line).
pub open spec fn tidy_spec(prev: bool, ks: Seq<FmtV>) -> Seq<FmtV>
    decreases ks.len(),
{
    if ks.len() == 0 {
        Seq::<FmtV>::empty()
    } else {
        let f = ks[0];
        let lead = if !prev && !f.leading.contains('\n') { seq!['\n'] + f.leading } else { f.leading };
        let term = if !f.terminator.contains('\n') { seq!['\n'] } else { f.terminator };
        let next = ends_nl(f.trailing) || (f.trailing.len() == 0 && ends_nl(term));
        seq![FmtV { leading: lead, terminator: term, trailing: f.trailing }] + tidy_spec(next, ks.drop_first())
    }
}

/// `s` without trailing spaces.
pub open spec fn trim_end_spaces(s: Seq<char>) -> Seq<char>
    decreases s.len(),
{
    if s.len() > 0 && s.last() == ' ' { trim_end_spaces(s.drop_last()) } else { s }
}

fn contains_nl(s: &str) -> (res: bool)
    ensures
        res == s@.contains('\n'),
{
    let cs = chars_of(s);
    let mut k: usize = 0;
    while k < cs.len()
        invariant
            cs@ == s@,
            k <= cs@.len(),
            forall|j: int| 0 <= j < k ==> cs@[j] != '\n',
        decreases cs.len() - k,
    {
        if cs[k] == '\n' {
            return true;
        }
        k += 1;
    }
    false
}

fn ends_nl_exec(s: &str) -> (res: bool)
    ensures
        res == ends_nl(s@),
{
    let cs = chars_of(s);
    cs.len() > 0 && cs[cs.len() - 1] == '\n'
}

/// Lays the children out again (`prev`: the block's opening text ends a line).
pub fn tidy_kids(prev: bool, ks: &Vec<Fmt>) -> (res: Vec<Fmt>)
    ensures
        res@.map_values(|f: Fmt| f@) == tidy_spec(prev, ks@.map_values(|f: Fmt| f@)),
{
    let ghost kv = ks@.map_values(|f: Fmt| f@);
    let mut out: Vec<Fmt> = Vec::new();
    let mut p = prev;
    let mut i: usize = 0;
    proof {
        assert(kv.skip(0) =~= kv);
        assert(out@.map_values(|f: Fmt| f@) + tidy_spec(p, kv.skip(0)) =~= tidy_spec(prev, kv));
    }
    while i < ks.len()
        invariant
            kv == ks@.map_values(|f: Fmt| f@),
            i <= ks@.len(),
            out@.map_values(|f: Fmt| f@) + tidy_spec(p, kv.skip(i as int)) == tidy_spec(prev, kv),
        decreases ks.len() - i,
    {
        let f = &ks[i];
        let lead = if !p && !contains_nl(f.leading.as_str()) {
            let mut l = string_from("\n");
            push_str(&mut l, f.leading.as_str());
            l
        } else {
            f.leading.clone()
        };
        let term = if !contains_nl(f.terminator.as_str()) { string_from("\n") } else { f.terminator.clone() };
        let next = ends_nl_exec(f.trailing.as_str()) || (str_eq(f.trailing.as_str(), "") && ends_nl_exec(term.as_str()));
        proof {
            reveal_strlit("\n");
            assert(kv.skip(i as int)[0] == f@);
            assert(kv.skip(i as int).drop_first() =~= kv.skip(i + 1));
        }
        let ghost before = out@.map_values(|f: Fmt| f@);
        let nf = Fmt { leading: lead, terminator: term, trailing: f.trailing.clone() };
        out.push(nf);
        proof {
            reveal_strlit("");
            if f.trailing@.len() == 0 { assert(f.trailing@ =~= ""@); }
            assert(out@.map_values(|f: Fmt| f@) =~= before.push(nf@));
            assert(nf@.leading == (if !p && !f@.leading.contains('\n') { seq!['\n'] + f@.leading } else { f@.leading }));
            assert(nf@.terminator == (if !f@.terminator.contains('\n') { seq!['\n'] } else { f@.terminator }));
            assert(next == (ends_nl(f@.trailing) || (f@.trailing.len() == 0 && ends_nl(nf@.terminator))));
            assert(tidy_spec(p, kv.skip(i as int)) == seq![nf@] + tidy_spec(next, kv.skip(i + 1)));
            assert(out@.map_values(|f: Fmt| f@) + tidy_spec(next, kv.skip(i + 1)) =~= before + tidy_spec(p, kv.skip(i as int)));
        }
        p = next;
        i += 1;
    }
    proof {
        assert(kv.skip(i as int) =~= Seq::<FmtV>::empty());
        assert(out@.map_values(|f: Fmt| f@) + Seq::<FmtV>::empty() =~= out@.map_values(|f: Fmt| f@));
    }
    out
}

/// `s` without trailing spaces.
pub fn trim_end_spaces_exec(s: &str) -> (res: String)
    ensures
        res@ == trim_end_spaces(s@),
{
    let cs = chars_of(s);
    let mut b = cs.len();
    proof {
        assert(cs@.take(b as int) =~= cs@);
    }
    while b > 0 && cs[b - 1] == ' '
        invariant
            cs@ == s@,
            b <= cs@.len(),
            trim_end_spaces(s@) == trim_end_spaces(cs@.take(b as int)),
        decreases b,
    {
        proof {
            assert(cs@.take(b as int).drop_last() =~= cs@.take(b - 1));
        }
        b -= 1;
    }
    proof {
        assert(cs@.subrange(0, b as int) =~= cs@.take(b as int));
    }
    string_of_range(&cs, 0, b)
}

/// What a `kdl` document holds, read as plain values: each top-level node's name, its
/// entries (a string as its text, another value as its `Display` text) and its child
/// block, the same way down.
pub uninterp spec fn kdl_trees(d: kdl::KdlDocument) -> Seq<Tree>;

/// `KdlDocument::nodes`, each node read with `KdlNode::name`, `KdlNode::entries`
/// (`KdlEntry::name`, `KdlEntry::value`, `KdlValue::is_string`) and `KdlNode::children`,
/// the same way down. Trusted: the result is `kdl_trees(*d)`, a function of the document,
/// and it holds the document's nodes, in order, by their names.
#[verifier::external_body]
fn read_trees(d: &kdl::KdlDocument) -> (res: Vec<Tree>)
    ensures
        res@ == kdl_trees(*d),
        res@.len() == kdl_nodes(*d).len(),
        forall|i: int| 0 <= i < res@.len() ==> (#[trigger] res@[i]).name@ == kdl_nodes(*d)[i].head.name@,
{
    d.nodes().iter().map(|n| Tree {
        name: n.name().value().to_string(),
        ents: n.entries().iter().map(|e| Ent {
            name: e.name().map(|k| k.value().to_string()),
            text: match e.value() { kdl::KdlValue::String(s) => s.clone(), v => v.to_string() },
            is_str: e.value().is_string(),
        }).collect(),
        kids: n.children().map(read_trees),
    }).collect()
}

/// Every source before `i` reads as KDL.
pub open spec fn docs_read_upto(sources: Seq<(String, String)>, i: int) -> bool {
    forall|j: int| 0 <= j < i ==> kdl_document((#[trigger] sources[j]).1@) is Ok
}

/// The refusal of a file that is not KDL: its path and the first diagnostic's message.
pub open spec fn open_err(file: Seq<char>, f: KdlFailure) -> EditErrV {
    EditErrV::Parse { file, msg: match f.message { Some(m) => m@, None => Seq::empty() } }
}

/// Reads the workspace's files `(path under flows/, text)` as KDL documents, in order; the
/// first file that is not KDL stops it with its path and message.
pub fn open_docs(sources: &Vec<(String, String)>) -> (res: Result<Vec<(String, kdl::KdlDocument)>, EditError>)
    ensures
        res is Ok <==> docs_read_upto(sources@, sources@.len() as int),
        res matches Ok(ds) ==> ds@.len() == sources@.len() && forall|i: int| 0 <= i < ds@.len() ==>
            (#[trigger] ds@[i]).0@ == sources@[i].0@
            && kdl_document(sources@[i].1@) == Ok::<Seq<KNode>, KdlFailure>(kdl_nodes(ds@[i].1)),
        res matches Err(e) ==> exists|i: int| 0 <= i < sources@.len() && docs_read_upto(sources@, i)
            && (kdl_document((#[trigger] sources@[i]).1@) matches Err(f) && e@ == open_err(sources@[i].0@, f)),
{
    let mut out: Vec<(String, kdl::KdlDocument)> = Vec::new();
    let mut i: usize = 0;
    while i < sources.len()
        invariant
            i <= sources@.len(),
            out@.len() == i,
            docs_read_upto(sources@, i as int),
            forall|j: int| 0 <= j < i ==> (#[trigger] out@[j]).0@ == sources@[j].0@
                && kdl_document(sources@[j].1@) == Ok::<Seq<KNode>, KdlFailure>(kdl_nodes(out@[j].1)),
        decreases sources.len() - i,
    {
        match kdl_parse(sources[i].1.as_str()) {
            Ok(d) => {
                out.push((sources[i].0.clone(), d));
            },
            Err(f) => {
                let msg = match f.message {
                    Some(m) => m,
                    None => String::new(),
                };
                let e = EditError::Parse { file: sources[i].0.clone(), msg };
                proof {
                    assert(e@ == open_err(sources@[i as int].0@, f));
                }
                return Err(e);
            },
        }
        i += 1;
    }
    Ok(out)
}

/// The files as the planner reads them, in the order given.
pub fn snapshot(docs: &Vec<(String, kdl::KdlDocument)>) -> (res: Ws)
    ensures
        res.files@.len() == docs@.len(),
        forall|i: int| 0 <= i < docs@.len() ==> (#[trigger] res.files@[i]).path@ == docs@[i].0@
            && res.files@[i].nodes@ == kdl_trees(docs@[i].1),
{
    let mut files: Vec<WsFile> = Vec::new();
    let mut i: usize = 0;
    while i < docs.len()
        invariant
            i <= docs@.len(),
            files@.len() == i,
            forall|j: int| 0 <= j < i ==> (#[trigger] files@[j]).path@ == docs@[j].0@
                && files@[j].nodes@ == kdl_trees(docs@[j].1),
        decreases docs.len() - i,
    {
        files.push(WsFile { path: docs[i].0.clone(), nodes: read_trees(&docs[i].1) });
        i += 1;
    }
    Ws { files }
}

} // verus!
