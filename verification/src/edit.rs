//! Editing operations on the flow files, their errors, and the text helpers the edits use
//! (quoting a KDL string, renaming an ID where it stands as a whole word).

use vstd::prelude::*;
use crate::model::Attr;
use crate::text::{
    chars_of, find_chars, first_occ, lemma_first_occ, push_char, push_range, push_str,
    is_ascii_alnum, };

verus! {

/// One editing operation; a list of them can also come as JSON (`duflow apply -`).
#[derive(Debug)]
pub enum Op {
    /// A new node. `kind`: state|action|call|event. `attrs`: layer, desc, method, path...
    AddNode { kind: String, id: String, attrs: Vec<Attr>, children: Vec<String> },
    /// Sets an attribute (`desc`, `layer`, `method`...); an empty value removes it.
    SetAttr { id: String, key: String, value: String },
    /// Adds a raw KDL child line.
    AddChild { id: String, line: String },
    /// Removes the children that lead to `to` (`->`, `on`, `returns`, `calls`, `check ... -> to`).
    RmEdge { id: String, to: String },
    /// Removes one child line by name and first argument: `check` + `perm:x`, `sets` + `v`.
    RmChild { id: String, name: String, arg: String },
    /// Renames a node, var or check ID; every reference follows, the file moves if needed.
    Rename { from: String, to: String },
    /// Changes a node's kind (`state` to `call`); children and comments stay.
    SetKind { id: String, kind: String },
    /// Removes a node or definition; with references only when `force` (which removes them too).
    RmNode { id: String, force: bool },
    AddVar { id: String, attrs: Vec<Attr> },
    AddCheck { id: String, attrs: Vec<Attr> },
    AddPerm { id: String, attrs: Vec<Attr> },
    AddRoot { id: String, attrs: Vec<Attr> },
}

pub open spec fn attr_pairs(a: Seq<Attr>) -> Seq<(Seq<char>, Seq<char>)> {
    a.map_values(|x: Attr| (x.key@, x.value@))
}

/// An operation as a value.
pub enum OpV {
    AddNode { kind: Seq<char>, id: Seq<char>, attrs: Seq<(Seq<char>, Seq<char>)>, children: Seq<Seq<char>> },
    SetAttr { id: Seq<char>, key: Seq<char>, value: Seq<char> },
    AddChild { id: Seq<char>, line: Seq<char> },
    RmEdge { id: Seq<char>, to: Seq<char> },
    RmChild { id: Seq<char>, name: Seq<char>, arg: Seq<char> },
    Rename { from: Seq<char>, to: Seq<char> },
    SetKind { id: Seq<char>, kind: Seq<char> },
    RmNode { id: Seq<char>, force: bool },
    AddVar { id: Seq<char>, attrs: Seq<(Seq<char>, Seq<char>)> },
    AddCheck { id: Seq<char>, attrs: Seq<(Seq<char>, Seq<char>)> },
    AddPerm { id: Seq<char>, attrs: Seq<(Seq<char>, Seq<char>)> },
    AddRoot { id: Seq<char>, attrs: Seq<(Seq<char>, Seq<char>)> },
}

impl View for Op {
    type V = OpV;

    open spec fn view(&self) -> OpV {
        match self {
            Op::AddNode { kind, id, attrs, children } => OpV::AddNode {
                kind: kind@, id: id@, attrs: attr_pairs(attrs@), children: crate::strset::views(children@),
            },
            Op::SetAttr { id, key, value } => OpV::SetAttr { id: id@, key: key@, value: value@ },
            Op::AddChild { id, line } => OpV::AddChild { id: id@, line: line@ },
            Op::RmEdge { id, to } => OpV::RmEdge { id: id@, to: to@ },
            Op::RmChild { id, name, arg } => OpV::RmChild { id: id@, name: name@, arg: arg@ },
            Op::Rename { from, to } => OpV::Rename { from: from@, to: to@ },
            Op::SetKind { id, kind } => OpV::SetKind { id: id@, kind: kind@ },
            Op::RmNode { id, force } => OpV::RmNode { id: id@, force: *force },
            Op::AddVar { id, attrs } => OpV::AddVar { id: id@, attrs: attr_pairs(attrs@) },
            Op::AddCheck { id, attrs } => OpV::AddCheck { id: id@, attrs: attr_pairs(attrs@) },
            Op::AddPerm { id, attrs } => OpV::AddPerm { id: id@, attrs: attr_pairs(attrs@) },
            Op::AddRoot { id, attrs } => OpV::AddRoot { id: id@, attrs: attr_pairs(attrs@) },
        }
    }
}

/// The name under which an operation is written in JSON (its `op` tag).
pub open spec fn op_name_spec(op: Op) -> Seq<char> {
    match op {
        Op::AddNode { .. } => "add_node"@,
        Op::SetAttr { .. } => "set_attr"@,
        Op::AddChild { .. } => "add_child"@,
        Op::RmEdge { .. } => "rm_edge"@,
        Op::RmChild { .. } => "rm_child"@,
        Op::Rename { .. } => "rename"@,
        Op::SetKind { .. } => "set_kind"@,
        Op::RmNode { .. } => "rm_node"@,
        Op::AddVar { .. } => "add_var"@,
        Op::AddCheck { .. } => "add_check"@,
        Op::AddPerm { .. } => "add_perm"@,
        Op::AddRoot { .. } => "add_root"@,
    }
}

impl Op {
    /// The operation's JSON tag.
    pub fn name(&self) -> (res: &'static str)
        ensures
            res@ == op_name_spec(*self),
    {
        match self {
            Op::AddNode { .. } => "add_node",
            Op::SetAttr { .. } => "set_attr",
            Op::AddChild { .. } => "add_child",
            Op::RmEdge { .. } => "rm_edge",
            Op::RmChild { .. } => "rm_child",
            Op::Rename { .. } => "rename",
            Op::SetKind { .. } => "set_kind",
            Op::RmNode { .. } => "rm_node",
            Op::AddVar { .. } => "add_var",
            Op::AddCheck { .. } => "add_check",
            Op::AddPerm { .. } => "add_perm",
            Op::AddRoot { .. } => "add_root",
        }
    }
}

/// Why an edit failed.
#[derive(Debug)]
pub enum EditError {
    /// A file could not be read or written (the system's message).
    Io(String),
    Parse { file: String, msg: String },
    NotFound(String),
    Exists(String, String),
    InvalidId(String),
    Referenced(String, String),
    Bad(String),
}

/// An edit error as a value.
pub enum EditErrV {
    Io(Seq<char>),
    Parse { file: Seq<char>, msg: Seq<char> },
    NotFound(Seq<char>),
    Exists(Seq<char>, Seq<char>),
    InvalidId(Seq<char>),
    Referenced(Seq<char>, Seq<char>),
    Bad(Seq<char>),
}

impl View for EditError {
    type V = EditErrV;

    open spec fn view(&self) -> EditErrV {
        match self {
            EditError::Io(m) => EditErrV::Io(m@),
            EditError::Parse { file, msg } => EditErrV::Parse { file: file@, msg: msg@ },
            EditError::NotFound(x) => EditErrV::NotFound(x@),
            EditError::Exists(x, f) => EditErrV::Exists(x@, f@),
            EditError::InvalidId(x) => EditErrV::InvalidId(x@),
            EditError::Referenced(x, r) => EditErrV::Referenced(x@, r@),
            EditError::Bad(m) => EditErrV::Bad(m@),
        }
    }
}

/// The message of an edit error.
pub open spec fn edit_error_text(e: EditError) -> Seq<char> {
    match e {
        EditError::Io(m) => m@,
        EditError::Parse { file, msg } => file@ + ": KDL parse error: "@ + msg@,
        EditError::NotFound(x) => "`"@ + x@ + "` not found"@,
        EditError::Exists(x, f) => "`"@ + x@ + "` zaten var ("@ + f@ + ")"@,
        EditError::InvalidId(x) => "invalid ID `"@ + x@ + "`"@,
        EditError::Referenced(x, r) => "`"@ + x@ + "` is referenced from: "@ + r@ + " (use --force to remove references too)"@,
        EditError::Bad(m) => m@,
    }
}

impl EditError {
    /// The message (what `Display` prints).
    pub fn to_text(&self) -> (res: String)
        ensures
            res@ == edit_error_text(*self),
    {
        let mut s = String::new();
        match self {
            EditError::Io(m) => push_str(&mut s, m.as_str()),
            EditError::Parse { file, msg } => {
                push_str(&mut s, file.as_str());
                push_str(&mut s, ": KDL parse error: ");
                push_str(&mut s, msg.as_str());
            },
            EditError::NotFound(x) => {
                push_str(&mut s, "`");
                push_str(&mut s, x.as_str());
                push_str(&mut s, "` not found");
            },
            EditError::Exists(x, f) => {
                push_str(&mut s, "`");
                push_str(&mut s, x.as_str());
                push_str(&mut s, "` zaten var (");
                push_str(&mut s, f.as_str());
                push_str(&mut s, ")");
            },
            EditError::InvalidId(x) => {
                push_str(&mut s, "invalid ID `");
                push_str(&mut s, x.as_str());
                push_str(&mut s, "`");
            },
            EditError::Referenced(x, r) => {
                push_str(&mut s, "`");
                push_str(&mut s, x.as_str());
                push_str(&mut s, "` is referenced from: ");
                push_str(&mut s, r.as_str());
                push_str(&mut s, " (use --force to remove references too)");
            },
            EditError::Bad(m) => push_str(&mut s, m.as_str()),
        }
        proof {
            assert(s@ =~= edit_error_text(*self));
        }
        s
    }
}

/// A character written escaped inside a KDL string: `\` and `"` get a backslash.
pub open spec fn escaped_char(c: char) -> Seq<char> {
    if c == '\\' { seq!['\\', '\\'] } else if c == '"' { seq!['\\', '"'] } else { seq![c] }
}

pub open spec fn escaped(s: Seq<char>) -> Seq<char>
    decreases s.len(),
{
    if s.len() == 0 { Seq::<char>::empty() } else { escaped(s.drop_last()) + escaped_char(s.last()) }
}

/// A KDL string literal: `"` + the text with `\` and `"` escaped + `"`.
pub fn quoted(s: &str) -> (res: String)
    ensures
        res@ == seq!['"'] + escaped(s@) + seq!['"'],
{
    let cs = chars_of(s);
    let mut out = String::new();
    push_char(&mut out, '"');
    let mut i: usize = 0;
    while i < cs.len()
        invariant
            i <= cs@.len(),
            cs@ == s@,
            out@ == seq!['"'] + escaped(cs@.take(i as int)),
        decreases cs.len() - i,
    {
        proof {
            assert(cs@.take(i + 1).drop_last() =~= cs@.take(i as int));
            assert(cs@.take(i + 1).last() == cs@[i as int]);
        }
        let c = cs[i];
        if c == '\\' {
            push_char(&mut out, '\\');
            push_char(&mut out, '\\');
        } else if c == '"' {
            push_char(&mut out, '\\');
            push_char(&mut out, '"');
        } else {
            push_char(&mut out, c);
        }
        proof {
            assert(out@ =~= seq!['"'] + escaped(cs@.take(i + 1)));
        }
        i += 1;
    }
    push_char(&mut out, '"');
    proof {
        assert(cs@.take(cs@.len() as int) =~= cs@);
    }
    out
}

/// An ID character: ASCII letter or digit, `_`, `.` or `:`.
pub open spec fn ident_byte(b: u8) -> bool {
    (48 <= b <= 57) || (65 <= b <= 90) || (97 <= b <= 122) || b == 95 || b == 46 || b == 58
}

pub open spec fn ident_char(c: char) -> bool {
    is_ascii_alnum(c) || c == '_' || c == '.' || c == ':'
}

/// Whether a byte can be part of an ID.
pub fn is_ident_char(b: u8) -> (res: bool)
    ensures
        res == ident_byte(b),
{
    (b >= 48 && b <= 57) || (b >= 65 && b <= 90) || (b >= 97 && b <= 122) || b == 95 || b == 46 || b == 58
}

fn char_is_ident(c: char) -> (res: bool)
    ensures
        res == ident_char(c),
{
    if (c as u32) < 128 {
        let b = c as u8;
        proof {
            assert(b as u32 == c as u32);
        }
        is_ident_char(b)
    } else {
        false
    }
}

/// Each occurrence of `w` in `s` from `pos` on (left to right, without overlap) replaced by
/// `to` where it stands as a whole word: the characters just around it in the text still
/// being scanned are not ID characters.
pub open spec fn replace_word_from(s: Seq<char>, w: Seq<char>, to: Seq<char>, pos: int) -> Seq<char>
    decreases s.len() - pos,
{
    if w.len() == 0 || pos < 0 || pos > s.len() {
        s.skip(pos)
    } else {
        let i = first_occ(s, w, pos);
        if i < 0 {
            s.skip(pos)
        } else {
            proof {
                lemma_first_occ(s, w, pos);
            }
            let after = i + w.len();
            let before_ok = i == pos || !ident_char(s[i - 1]);
            let after_ok = after >= s.len() || !ident_char(s[after]);
            s.subrange(pos, i) + (if before_ok && after_ok { to } else { w }) + replace_word_from(s, w, to, after)
        }
    }
}

/// Renames `from` to `to` where it stands as a whole word.
pub fn replace_word(s: &str, from: &str, to: &str) -> (res: String)
    requires
        from@.len() > 0,
    ensures
        res@ == replace_word_from(s@, from@, to@, 0),
{
    let cs = chars_of(s);
    let ws = chars_of(from);
    let mut out = String::new();
    let mut pos: usize = 0;
    loop
        invariant
            cs@ == s@,
            ws@ == from@,
            ws@.len() > 0,
            pos <= cs@.len(),
            out@ + replace_word_from(s@, from@, to@, pos as int) == replace_word_from(s@, from@, to@, 0),
        decreases cs@.len() - pos,
    {
        proof {
            lemma_first_occ(cs@, ws@, pos as int);
        }
        let n = cs.len();
        match find_chars(&cs, &ws, pos) {
            None => {
                push_range(&mut out, &cs, pos, n);
                proof {
                    assert(cs@.subrange(pos as int, cs@.len() as int) =~= cs@.skip(pos as int));
                }
                return out;
            },
            Some(i) => {
                let before_ok = i == pos || !char_is_ident(cs[i - 1]);
                let after = i + ws.len();
                let after_ok = after >= n || !char_is_ident(cs[after]);
                let ghost before = out@;
                push_range(&mut out, &cs, pos, i);
                if before_ok && after_ok {
                    push_str(&mut out, to);
                } else {
                    push_str(&mut out, from);
                }
                proof {
                    assert(before + replace_word_from(s@, from@, to@, pos as int) ==
                        out@ + replace_word_from(s@, from@, to@, after as int));
                }
                pos = after;
            },
        }
    }
}

} // verus!
