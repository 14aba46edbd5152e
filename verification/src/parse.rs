//! KDL file → `FileItems`. Only syntax and shape; reference consistency is lint's job.
//!
//! The KDL text is read by the `kdl` crate into a plain two-level tree (top-level nodes and
//! their child lines; nothing below is ever read); everything after that is verified here.

use vstd::prelude::*;
use vstd::string::StringSliceAdditionalSpecFns;
use kdl::{KdlNode as N, KdlValue as V};
use self::KVal::{Bool, Float, Int, Null, Str};
use crate::model::{CheckUseV, EdgeKindV, EdgeV, OutcomeV, attr_lookup, attr_map_has, ostr};
use crate::model::{
    Attr, CheckDef, CheckUse, Edge, EdgeKind, FileItems, Kind, Node, Outcome, PermDef,
    ProjectConfig, RootDef, SetVar, VarDef, ViewDef, attr_insert, attrs_wf, dotted_ident,
    is_valid_check_id, is_valid_id, kind_of_name, perm_check_id, s_perm_prefix,
};
use crate::text::{
    dec_int, dec_string, push_char, push_str, str_eq, string_from, };

verus! {

/// A KDL value as the library reads it. A float is kept in its decimal rendering.
#[derive(Debug)]
pub enum KVal {
    Str(String),
    Int(i128),
    Float(String),
    Bool(bool),
    Null,
}

impl Clone for KVal {
    fn clone(&self) -> (res: Self)
        ensures
            res == *self,
    {
        match self {
            KVal::Str(s) => KVal::Str(s.clone()),
            KVal::Int(i) => KVal::Int(*i),
            KVal::Float(t) => KVal::Float(t.clone()),
            KVal::Bool(b) => KVal::Bool(*b),
            KVal::Null => KVal::Null,
        }
    }
}

/// An entry of a KDL node: an argument (no name) or a property (`name=value`).
#[derive(Debug)]
pub struct KEntry {
    pub name: Option<String>,
    pub value: KVal,
}

/// One KDL node without its children: name, entries and byte offset in the source.
#[derive(Debug)]
pub struct KLine {
    pub name: String,
    pub offset: usize,
    pub entries: Vec<KEntry>,
}

/// A top-level KDL node and its child lines (`None`: no `{ }` block).
#[derive(Debug)]
pub struct KNode {
    pub head: KLine,
    pub children: Option<Vec<KLine>>,
}

/// A KDL syntax error as reported by the `kdl` crate: the first diagnostic's byte offset
/// and message, when there is a diagnostic.
#[derive(Debug)]
pub struct KdlFailure {
    pub offset: Option<usize>,
    pub message: Option<String>,
}

/// A document as the `kdl` crate holds it.
#[verifier::external_type_specification]
#[verifier::external_body]
pub struct ExKdlDocument(kdl::KdlDocument);

/// What the `kdl` crate reads from a source text: the document's top-level nodes with their
/// child lines, or the syntax error.
pub uninterp spec fn kdl_document(src: Seq<char>) -> Result<Seq<KNode>, KdlFailure>;

/// The top-level nodes a `kdl` document holds, with their child lines, as plain values.
pub uninterp spec fn kdl_nodes(d: kdl::KdlDocument) -> Seq<KNode>;

/// `kdl::KdlDocument::parse` (KDL v2; the crate's `v1-fallback` feature is off). Trusted: the outcome is
/// `kdl_document(src@)`, a function of the text alone, and a parsed document holds exactly
/// those nodes; a failure is converted to the first diagnostic's offset and message.
#[verifier::external_body]
pub(crate) fn kdl_parse(src: &str) -> (res: Result<kdl::KdlDocument, KdlFailure>)
    ensures
        match res {
            Ok(d) => kdl_document(src@) == Ok::<Seq<KNode>, KdlFailure>(kdl_nodes(d)),
            Err(e) => kdl_document(src@) == Err::<Seq<KNode>, KdlFailure>(e),
        },
{
    kdl::KdlDocument::parse(src).map_err(|e| KdlFailure {
        offset: e.diagnostics.first().map(|d| d.span.offset()),
        message: e.diagnostics.first().and_then(|d| d.message.clone()),
    })
}

/// `kdl::KdlDocument::nodes`, each node's own line copied out: name, entries (a float as
/// `f64::to_string`), byte offset. Trusted: the lines are the heads of `kdl_nodes(*d)`.
#[verifier::external_body]
fn kdl_heads(d: &kdl::KdlDocument) -> (res: Vec<KLine>)
    ensures
        res@ == kdl_nodes(*d).map_values(|k: KNode| k.head),
{
    d.nodes().iter().map(|n: &N| KLine { name: n.name().value().into(), offset: n.span().offset(),
        entries: n.entries().iter().map(|e| KEntry { name: e.name().map(|k| k.value().into()), value: match e.value() {
            V::String(s) => Str(s.clone()), V::Integer(i) => Int(*i), V::Float(f) => Float(f.to_string()),
            V::Bool(b) => Bool(*b), V::Null => Null } }).collect() }).collect()
}

/// `kdl::KdlNode::children` of each node of `kdl::KdlDocument::nodes`, cloned. Trusted: a
/// node has a child block exactly when `kdl_nodes(*d)` says so, and that block's nodes'
/// own lines are the node's child lines.
#[verifier::external_body]
fn kdl_child_docs(d: &kdl::KdlDocument) -> (res: Vec<Option<kdl::KdlDocument>>)
    ensures
        res@.len() == kdl_nodes(*d).len(),
        forall|i: int| 0 <= i < res@.len() ==> match (#[trigger] res@[i], kdl_nodes(*d)[i].children) {
            (Some(c), Some(ls)) => kdl_nodes(c).map_values(|k: KNode| k.head) == ls@,
            (None, None) => true,
            _ => false,
        },
{
    d.nodes().iter().map(|n: &N| n.children().cloned()).collect()
}

/// The document's top-level nodes with their child lines.
fn kdl_node_lines(d: &kdl::KdlDocument) -> (res: Vec<KNode>)
    ensures
        res@.len() == kdl_nodes(*d).len(),
        forall|i: int| 0 <= i < res@.len() ==> (#[trigger] res@[i]).head == kdl_nodes(*d)[i].head
            && match (res@[i].children, kdl_nodes(*d)[i].children) {
                (Some(a), Some(b)) => a@ == b@,
                (None, None) => true,
                _ => false,
            },
{
    let mut heads = kdl_heads(d);
    let mut kids = kdl_child_docs(d);
    let ghost hv = heads@;
    let ghost kv = kids@;
    let ghost n = kids@.len();
    let mut out: Vec<KNode> = Vec::new();
    while heads.len() > 0 && kids.len() > 0
        invariant
            hv == kdl_nodes(*d).map_values(|k: KNode| k.head),
            kv.len() == kdl_nodes(*d).len(),
            n == kv.len(),
            heads@.len() == kids@.len(),
            out@.len() + heads@.len() == n,
            heads@ == hv.skip(out@.len() as int),
            kids@ == kv.skip(out@.len() as int),
            forall|i: int| 0 <= i < n ==> match (#[trigger] kv[i], kdl_nodes(*d)[i].children) {
                (Some(c), Some(ls)) => kdl_nodes(c).map_values(|k: KNode| k.head) == ls@,
                (None, None) => true,
                _ => false,
            },
            forall|i: int| 0 <= i < out@.len() ==> (#[trigger] out@[i]).head == kdl_nodes(*d)[i].head
                && match (out@[i].children, kdl_nodes(*d)[i].children) {
                    (Some(a), Some(b)) => a@ == b@,
                    (None, None) => true,
                    _ => false,
                },
        decreases heads.len(),
    {
        let ghost k = out@.len() as int;
        let ghost hb = heads@;
        let ghost kb = kids@;
        let head = heads.remove(0);
        let kid = kids.remove(0);
        proof {
            assert(head == hv[k]);
            assert(kid == kv[k]);
            assert(heads@ =~= hv.skip(k + 1));
            assert(kids@ =~= kv.skip(k + 1));
        }
        let children = match kid {
            Some(c) => Some(kdl_heads(&c)),
            None => None,
        };
        let ghost ob = out@;
        out.push(KNode { head, children });
        proof {
            assert forall|i: int| 0 <= i < out@.len() implies (#[trigger] out@[i]).head == kdl_nodes(*d)[i].head
                && match (out@[i].children, kdl_nodes(*d)[i].children) {
                    (Some(a), Some(b)) => a@ == b@,
                    (None, None) => true,
                    _ => false,
                } by {
                if i < k {
                    assert(out@[i] == ob[i]);
                } else {
                    assert(kv[k] == kid);
                }
            }
        }
    }
    out
}

#[derive(Debug)]
pub enum ParseError {
    Syntax { file: String, line: usize, msg: String },
    Shape { file: String, line: usize, msg: String },
}

impl ParseError {
    /// `file:line: KDL syntax: msg` or `file:line: msg`.
    pub fn to_text(&self) -> (res: String)
        ensures
            match self {
                ParseError::Syntax { file, line, msg } => res@ == file@ + seq![':'] + crate::text::dec(*line as nat)
                    + seq![':', ' ', 'K', 'D', 'L', ' ', 's', 'y', 'n', 't', 'a', 'x', ':', ' '] + msg@,
                ParseError::Shape { file, line, msg } => res@ == file@ + seq![':'] + crate::text::dec(*line as nat)
                    + seq![':', ' '] + msg@,
            },
    {
        proof {
            reveal_strlit(": KDL syntax: ");
            reveal_strlit(": ");
            assert(": KDL syntax: "@ =~= seq![':', ' ', 'K', 'D', 'L', ' ', 's', 'y', 'n', 't', 'a', 'x', ':', ' ']);
            assert(": "@ =~= seq![':', ' ']);
        }
        match self {
            ParseError::Syntax { file, line, msg } => {
                let mut s = file.clone();
                push_char(&mut s, ':');
                let d = dec_string(*line as u64);
                push_str(&mut s, d.as_str());
                push_str(&mut s, ": KDL syntax: ");
                push_str(&mut s, msg.as_str());
                s
            },
            ParseError::Shape { file, line, msg } => {
                let mut s = file.clone();
                push_char(&mut s, ':');
                let d = dec_string(*line as u64);
                push_str(&mut s, d.as_str());
                push_str(&mut s, ": ");
                push_str(&mut s, msg.as_str());
                s
            },
        }
    }
}

/// Number of `\n` bytes in `b`.
pub open spec fn count_newlines(b: Seq<u8>) -> nat
    decreases b.len(),
{
    if b.len() == 0 {
        0
    } else {
        count_newlines(b.drop_last()) + if b.last() == 10u8 { 1nat } else { 0nat }
    }
}

/// 1-based line of a byte offset: one more than the newlines before it (the offset is
/// clamped to the text's length).
pub open spec fn line_of_spec(src: Seq<char>, offset: usize) -> nat {
    let b = vstd::utf8::encode_utf8(src);
    let end = if offset < b.len() { offset as int } else { b.len() as int };
    count_newlines(b.take(end)) + 1
}

pub fn line_of(src: &str, offset: usize) -> (res: usize)
    requires
        src.spec_bytes().len() < usize::MAX,
    ensures
        res == line_of_spec(src@, offset),
{
    let b = src.as_bytes();
    let end = if offset < b.len() { offset } else { b.len() };
    let mut n: usize = 0;
    let mut i: usize = 0;
    while i < end
        invariant
            b@ == src.spec_bytes(),
            end <= b@.len(),
            i <= end,
            n == count_newlines(b@.take(i as int)),
            n <= i,
        decreases end - i,
    {
        proof {
            assert(b@.take(i + 1).drop_last() =~= b@.take(i as int));
        }
        if b[i] == 10u8 {
            n += 1;
        }
        i += 1;
    }
    n + 1
}

/// Text of a value: a string as is, a number in decimal, `true`/`false`, `null`.
pub open spec fn val_text(v: KVal) -> Seq<char> {
    match v {
        KVal::Str(s) => s@,
        KVal::Int(i) => dec_int(i as int),
        KVal::Float(t) => t@,
        KVal::Bool(b) => if b { seq!['t', 'r', 'u', 'e'] } else { seq!['f', 'a', 'l', 's', 'e'] },
        KVal::Null => seq!['n', 'u', 'l', 'l'],
    }
}

/// Decimal rendering of any `i128`.
pub fn i128_text(n: i128) -> (res: String)
    ensures
        res@ == dec_int(n as int),
{
    if n < 0 {
        let m: u128 = ((-(n + 1)) as u128) + 1;
        let mut s = String::new();
        push_char(&mut s, '-');
        let t = u128_text(m);
        push_str(&mut s, t.as_str());
        proof {
            assert(s@ =~= seq!['-'] + crate::text::dec((-n) as nat));
        }
        s
    } else {
        u128_text(n as u128)
    }
}

/// Decimal rendering of a `u128`.
pub fn u128_text(n: u128) -> (res: String)
    ensures
        res@ == crate::text::dec(n as nat),
    decreases n,
{
    let d = (n % 10) as u64;
    let one = dec_string(d);
    if n < 10 {
        one
    } else {
        let mut s = u128_text(n / 10);
        push_str(&mut s, one.as_str());
        proof {
            assert(crate::text::dec(d as nat) =~= seq![crate::text::digit_char(d as nat)]);
        }
        s
    }
}

pub fn val_str(v: &KVal) -> (res: String)
    ensures
        res@ == val_text(*v),
{
    proof {
        reveal_strlit("true");
        reveal_strlit("false");
        reveal_strlit("null");
        assert("true"@ =~= seq!['t', 'r', 'u', 'e']);
        assert("false"@ =~= seq!['f', 'a', 'l', 's', 'e']);
        assert("null"@ =~= seq!['n', 'u', 'l', 'l']);
    }
    match v {
        KVal::Str(s) => s.clone(),
        KVal::Int(i) => i128_text(*i),
        KVal::Float(t) => t.clone(),
        KVal::Bool(b) => if *b { string_from("true") } else { string_from("false") },
        KVal::Null => string_from("null"),
    }
}

/// Positional arguments (entries without a name), in order.
pub open spec fn args_spec(es: Seq<KEntry>) -> Seq<KVal>
    decreases es.len(),
{
    if es.len() == 0 {
        Seq::<KVal>::empty()
    } else {
        let r = args_spec(es.drop_last());
        if es.last().name is None { r.push(es.last().value) } else { r }
    }
}

pub fn args(l: &KLine) -> (res: Vec<KVal>)
    ensures
        res@ == args_spec(l.entries@),
{
    let mut out: Vec<KVal> = Vec::new();
    let mut i: usize = 0;
    while i < l.entries.len()
        invariant
            i <= l.entries@.len(),
            out@ == args_spec(l.entries@.take(i as int)),
        decreases l.entries.len() - i,
    {
        proof {
            assert(l.entries@.take(i + 1).drop_last() =~= l.entries@.take(i as int));
        }
        if l.entries[i].name.is_none() {
            out.push(l.entries[i].value.clone());
        }
        i += 1;
    }
    proof {
        assert(l.entries@.take(l.entries@.len() as int) =~= l.entries@);
    }
    out
}

/// The first property called `name`.
pub open spec fn prop_spec(es: Seq<KEntry>, name: Seq<char>) -> Option<KVal>
    decreases es.len(),
{
    if es.len() == 0 {
        None
    } else if es[0].name is Some && es[0].name->0@ == name {
        Some(es[0].value)
    } else {
        prop_spec(es.drop_first(), name)
    }
}

pub fn prop<'a>(l: &'a KLine, name: &str) -> (res: Option<&'a KVal>)
    ensures
        match res {
            Some(v) => prop_spec(l.entries@, name@) == Some(*v),
            None => prop_spec(l.entries@, name@) is None,
        },
{
    let mut i: usize = 0;
    proof {
        assert(l.entries@.subrange(0, l.entries@.len() as int) =~= l.entries@);
    }
    while i < l.entries.len()
        invariant
            i <= l.entries@.len(),
            prop_spec(l.entries@, name@) == prop_spec(l.entries@.subrange(i as int, l.entries@.len() as int), name@),
        decreases l.entries.len() - i,
    {
        let ghost rest = l.entries@.subrange(i as int, l.entries@.len() as int);
        proof {
            assert(rest.drop_first() =~= l.entries@.subrange(i + 1, l.entries@.len() as int));
            assert(rest[0] == l.entries@[i as int]);
        }
        match &l.entries[i].name {
            Some(n) => {
                if str_eq(n.as_str(), name) {
                    return Some(&l.entries[i].value);
                }
            },
            None => {},
        }
        i += 1;
    }
    proof {
        assert(l.entries@.subrange(i as int, l.entries@.len() as int) =~= Seq::<KEntry>::empty());
    }
    None
}

proof fn lemma_prop_start(es: Seq<KEntry>, name: Seq<char>)
    ensures
        prop_spec(es, name) == prop_spec(es.subrange(0, es.len() as int), name),
{
    assert(es.subrange(0, es.len() as int) =~= es);
}

pub open spec fn prop_text(es: Seq<KEntry>, name: Seq<char>) -> Option<Seq<char>> {
    match prop_spec(es, name) {
        Some(v) => Some(val_text(v)),
        None => None,
    }
}

pub fn prop_str(l: &KLine, name: &str) -> (res: Option<String>)
    ensures
        match res {
            Some(s) => prop_text(l.entries@, name@) == Some(s@),
            None => prop_text(l.entries@, name@) is None,
        },
{
    proof { lemma_prop_start(l.entries@, name@); }
    match prop(l, name) {
        Some(v) => Some(val_str(v)),
        None => None,
    }
}

/// An integer property in `0..=65535`.
pub open spec fn prop_u16_spec(es: Seq<KEntry>, name: Seq<char>) -> Option<u16> {
    match prop_spec(es, name) {
        Some(KVal::Int(i)) => if 0 <= i <= 65535 { Some(i as u16) } else { None },
        _ => None,
    }
}

pub fn prop_u16(l: &KLine, name: &str) -> (res: Option<u16>)
    ensures
        res == prop_u16_spec(l.entries@, name@),
{
    proof { lemma_prop_start(l.entries@, name@); }
    match prop(l, name) {
        Some(KVal::Int(i)) => if 0 <= *i && *i <= 65535 { Some(*i as u16) } else { None },
        _ => None,
    }
}

/// An integer property that fits `u32`.
pub open spec fn prop_u32_spec(es: Seq<KEntry>, name: Seq<char>) -> Option<u32> {
    match prop_spec(es, name) {
        Some(KVal::Int(i)) => if 0 <= i <= u32::MAX { Some(i as u32) } else { None },
        _ => None,
    }
}

pub fn prop_u32(l: &KLine, name: &str) -> (res: Option<u32>)
    ensures
        res == prop_u32_spec(l.entries@, name@),
{
    proof { lemma_prop_start(l.entries@, name@); }
    match prop(l, name) {
        Some(KVal::Int(i)) => if 0 <= *i && *i <= 4294967295 { Some(*i as u32) } else { None },
        _ => None,
    }
}

pub open spec fn s_arrow() -> Seq<char> { seq!['-', '>'] }

pub open spec fn is_arrow(v: KVal) -> bool {
    v matches KVal::Str(s) && s@ == s_arrow()
}

/// The text after the first `->` argument, if there is one after it.
pub open spec fn arrow_spec(a: Seq<KVal>) -> Option<Seq<char>>
    decreases a.len(),
{
    if a.len() == 0 {
        None
    } else if is_arrow(a[0]) {
        if a.len() > 1 { Some(val_text(a[1])) } else { None }
    } else {
        arrow_spec(a.drop_first())
    }
}

fn is_arrow_val(v: &KVal) -> (res: bool)
    ensures
        res == is_arrow(*v),
{
    proof {
        reveal_strlit("->");
        assert("->"@ =~= s_arrow());
    }
    match v {
        KVal::Str(s) => str_eq(s.as_str(), "->"),
        _ => false,
    }
}

/// The `... -> "x"` tail: the text of the argument after `->`.
pub fn arrow_target(l: &KLine) -> (res: Option<String>)
    ensures
        match res {
            Some(s) => arrow_spec(args_spec(l.entries@)) == Some(s@),
            None => arrow_spec(args_spec(l.entries@)) is None,
        },
{
    let a = args(l);
    let mut i: usize = 0;
    proof {
        assert(a@.subrange(0, a@.len() as int) =~= a@);
    }
    while i < a.len()
        invariant
            i <= a@.len(),
            a@ == args_spec(l.entries@),
            arrow_spec(a@) == arrow_spec(a@.subrange(i as int, a@.len() as int)),
        decreases a.len() - i,
    {
        let ghost rest = a@.subrange(i as int, a@.len() as int);
        proof {
            assert(rest.drop_first() =~= a@.subrange(i + 1, a@.len() as int));
        }
        if is_arrow_val(&a[i]) {
            if i + 1 < a.len() {
                return Some(val_str(&a[i + 1]));
            }
            return None;
        }
        i += 1;
    }
    None
}

/// First argument of the first child line called `name`.
pub open spec fn child_text_spec(children: Option<Seq<KLine>>, name: Seq<char>) -> Option<Seq<char>> {
    match children {
        None => None,
        Some(cs) => match first_named(cs, name) {
            None => None,
            Some(c) => {
                let a = args_spec(c.entries@);
                if a.len() > 0 { Some(val_text(a[0])) } else { None }
            },
        },
    }
}

pub open spec fn first_named(cs: Seq<KLine>, name: Seq<char>) -> Option<KLine>
    decreases cs.len(),
{
    if cs.len() == 0 {
        None
    } else if cs[0].name@ == name {
        Some(cs[0])
    } else {
        first_named(cs.drop_first(), name)
    }
}

pub fn child_str(n: &KNode, name: &str) -> (res: Option<String>)
    ensures
        match res {
            Some(s) => child_text_spec(opt_view(n.children), name@) == Some(s@),
            None => child_text_spec(opt_view(n.children), name@) is None,
        },
{
    match &n.children {
        None => None,
        Some(cs) => {
            let mut i: usize = 0;
            proof {
                assert(cs@.subrange(0, cs@.len() as int) =~= cs@);
            }
            while i < cs.len()
                invariant
                    i <= cs@.len(),
                    opt_view(n.children) == Some(cs@),
                    first_named(cs@, name@) == first_named(cs@.subrange(i as int, cs@.len() as int), name@),
                decreases cs.len() - i,
            {
                let ghost rest = cs@.subrange(i as int, cs@.len() as int);
                proof {
                    assert(rest.drop_first() =~= cs@.subrange(i + 1, cs@.len() as int));
                }
                proof {
                    assert(rest[0] == cs@[i as int]);
                }
                if str_eq(cs[i].name.as_str(), name) {
                    assert(first_named(cs@, name@) == Some(cs@[i as int]));
                    let a = args(&cs[i]);
                    if a.len() > 0 {
                        return Some(val_str(&a[0]));
                    }
                    return None;
                }
                i += 1;
            }
            None
        },
    }
}

pub open spec fn opt_view(o: Option<Vec<KLine>>) -> Option<Seq<KLine>> {
    match o {
        Some(v) => Some(v@),
        None => None,
    }
}

/// Where a node is being read from.
pub struct Ctx<'a> {
    pub file: &'a str,
    pub src: &'a str,
}

pub open spec fn ctx_ok(cx: Ctx) -> bool {
    cx.src.spec_bytes().len() < usize::MAX
}

impl<'a> Ctx<'a> {
    fn line(&self, l: &KLine) -> (res: usize)
        requires
            ctx_ok(*self),
        ensures
            res == line_of_spec(self.src@, l.offset),
    {
        line_of(self.src, l.offset)
    }

    fn err(&self, l: &KLine, msg: String) -> (res: ParseError)
        requires
            ctx_ok(*self),
        ensures
            res matches ParseError::Shape { file, line, msg: m } && file@ == self.file@
                && line == line_of_spec(self.src@, l.offset) && m@ == msg@,
    {
        ParseError::Shape { file: string_from(self.file), line: self.line(l), msg }
    }
}

/// The first argument as an ID: it must be a string.
pub open spec fn first_id_spec(l: KLine) -> Option<Seq<char>> {
    let a = args_spec(l.entries@);
    if a.len() > 0 && a[0] is Str { Some(a[0]->Str_0@) } else { None }
}

fn first_id(cx: &Ctx, l: &KLine) -> (res: Result<String, ParseError>)
    requires
        ctx_ok(*cx),
    ensures
        match res {
            Ok(s) => first_id_spec(*l) == Some(s@),
            Err(e) => first_id_spec(*l) is None && (e matches ParseError::Shape { file, line, msg }
                && file@ == cx.file@ && line == line_of_spec(cx.src@, l.offset) && msg@ == id_err(*l)),
        },
{
    let a = args(l);
    if a.len() > 0 {
        match &a[0] {
            KVal::Str(s) => return Ok(s.clone()),
            _ => {},
        }
    }
    let mut m = string_from("first argument of `");
    push_str(&mut m, l.name.as_str());
    push_str(&mut m, "` must be an ID");
    proof {
        assert(m@ =~= id_err(*l));
    }
    Err(cx.err(l, m))
}

pub open spec fn default_layer_spec(k: Kind) -> Seq<char> {
    match k {
        Kind::State | Kind::Action => seq!['u', 'i'],
        Kind::Call => seq!['a', 'p', 'i'],
        Kind::Event => seq!['d', 'o', 'm', 'a', 'i', 'n'],
    }
}

pub fn default_layer(kind: Kind) -> (res: &'static str)
    ensures
        res@ == default_layer_spec(kind),
{
    proof {
        reveal_strlit("ui");
        reveal_strlit("api");
        reveal_strlit("domain");
        assert("ui"@ =~= seq!['u', 'i']);
        assert("api"@ =~= seq!['a', 'p', 'i']);
        assert("domain"@ =~= seq!['d', 'o', 'm', 'a', 'i', 'n']);
    }
    match kind {
        Kind::State | Kind::Action => "ui",
        Kind::Call => "api",
        Kind::Event => "domain",
    }
}

pub open spec fn s_layer() -> Seq<char> { seq!['l', 'a', 'y', 'e', 'r'] }
pub open spec fn s_desc() -> Seq<char> { seq!['d', 'e', 's', 'c'] }
pub open spec fn s_outcome() -> Seq<char> { seq!['o', 'u', 't', 'c', 'o', 'm', 'e'] }

/// The refusal of a line whose first argument is not a string ID.
pub open spec fn id_err(l: KLine) -> Seq<char> {
    "first argument of `"@ + l.name@ + "` must be an ID"@
}

/// The refusal of a child line that is not well formed (see `child_ok`).
pub open spec fn child_err(c: KLine) -> Seq<char> {
    let a = args_spec(c.entries@);
    let n = c.name@;
    if n == s_arrow() {
        "`->` needs a target or `outcome=`"@
    } else if n == seq!['o', 'n'] {
        if a.len() == 0 { "`on` needs an event ID"@ } else { "expected `on \"ev\" -> \"target\"`"@ }
    } else if n == seq!['r', 'e', 't', 'u', 'r', 'n', 's'] {
        if a.len() == 0 {
            "expected `returns <status|tag> -> \"target\"`"@
        } else {
            match a[0] {
                KVal::Int(i) => if 0 <= i <= 65535 {
                    "`returns` requires `-> \"target\"` or `outcome=\"...\"`"@
                } else {
                    "invalid status"@
                },
                KVal::Str(t) => if t@ == s_arrow() {
                    "first argument of `returns` must be a status or a tag"@
                } else {
                    "`returns` requires `-> \"target\"` or `outcome=\"...\"`"@
                },
                _ => "first argument of `returns` must be a status or a tag"@,
            }
        }
    } else if n == seq!['c', 'h', 'e', 'c', 'k'] {
        "`check` needs a name"@
    } else if n == seq!['s', 'e', 't', 's'] {
        "expected `sets \"var\" \"value\"`"@
    } else {
        ("unknown child `"@ + n).push('`')
    }
}

/// The refusal of a `state | action | call | event` node: its ID, else its first bad child line.
pub open spec fn node_err(k: KNode) -> Seq<char> {
    match first_id_spec(k.head) {
        None => id_err(k.head),
        Some(id) => if !dotted_ident(id, false) {
            "invalid ID `"@ + id + "` (allowed: a-z 0-9 _ and dot)"@
        } else {
            child_err(first_bad_child(children_of(k)).unwrap())
        },
    }
}

/// The refusal of a `var`, `check` or `perm` definition whose ID is bad; `what` opens the
/// message (`invalid var ID \``).
pub open spec fn def_err(k: KNode, what: Seq<char>) -> Seq<char> {
    match first_id_spec(k.head) {
        None => id_err(k.head),
        Some(id) => (what + id).push('`'),
    }
}

/// A child line is well formed: `->` needs a target or an `outcome=`, `on` an event and a
/// target, `returns` a status or tag plus a target or an `outcome=`, `check` and `sets` a
/// first argument, an unknown child an argument (kept as an attribute).
pub open spec fn child_ok(c: KLine) -> bool {
    let a = args_spec(c.entries@);
    let n = c.name@;
    if n == s_desc() || n == seq!['d', 'o', 'c'] || n == seq!['c', 'a', 'l', 'l', 's']
        || n == seq!['r', 'e', 'q', 'u', 'i', 'r', 'e', 's'] {
        true
    } else if n == s_arrow() {
        a.len() > 0 || prop_text(c.entries@, s_outcome()) is Some
    } else if n == seq!['o', 'n'] {
        a.len() > 0 && arrow_spec(a) is Some
    } else if n == seq!['r', 'e', 't', 'u', 'r', 'n', 's'] {
        &&& a.len() > 0
        &&& match a[0] {
            KVal::Int(i) => 0 <= i <= 65535,
            KVal::Str(t) => t@ != s_arrow(),
            _ => false,
        }
        &&& (arrow_spec(a) is Some || prop_text(c.entries@, s_outcome()) is Some)
    } else {
        a.len() > 0
    }
}

pub open spec fn children_of(n: KNode) -> Seq<KLine> {
    match n.children {
        Some(v) => v@,
        None => Seq::<KLine>::empty(),
    }
}

/// The description: a `desc=` property, overridden by a later `desc "..."` child line.
pub open spec fn node_desc_spec(n: KNode) -> Option<Seq<char>> {
    desc_after(prop_text(n.head.entries@, s_desc()), children_of(n))
}

pub open spec fn desc_after(d: Option<Seq<char>>, cs: Seq<KLine>) -> Option<Seq<char>>
    decreases cs.len(),
{
    if cs.len() == 0 {
        d
    } else {
        let prev = desc_after(d, cs.drop_last());
        let c = cs.last();
        if c.name@ == s_desc() {
            let a = args_spec(c.entries@);
            if a.len() > 0 { Some(val_text(a[0])) } else { None }
        } else {
            prev
        }
    }
}

/// What the lines of a node add up to, as values.
pub struct NodeAcc {
    pub desc: Option<Seq<char>>,
    pub doc: Option<Seq<char>>,
    pub attrs: Map<Seq<char>, Seq<char>>,
    pub edges: Seq<EdgeV>,
    pub checks: Seq<CheckUseV>,
    pub sets: Seq<(Seq<char>, Seq<char>, usize)>,
    pub outcomes: Seq<OutcomeV>,
}

/// The head's properties other than `layer` and `desc`, the later one winning.
pub open spec fn head_attrs(es: Seq<KEntry>) -> Map<Seq<char>, Seq<char>>
    decreases es.len(),
{
    if es.len() == 0 {
        Map::empty()
    } else {
        let m = head_attrs(es.drop_last());
        let e = es.last();
        match e.name {
            Some(k) => if k@ != s_layer() && k@ != s_desc() { m.insert(k@, val_text(e.value)) } else { m },
            None => m,
        }
    }
}

/// The number of arguments before the first `->`.
pub open spec fn first_arrow(a: Seq<KVal>) -> int
    decreases a.len(),
{
    if a.len() == 0 { 0 } else if is_arrow(a[0]) { 0 } else { 1 + first_arrow(a.drop_first()) }
}

pub open spec fn s_when() -> Seq<char> { seq!['w', 'h', 'e', 'n'] }
pub open spec fn s_case() -> Seq<char> { seq!['c', 'a', 's', 'e'] }
pub open spec fn s_seq() -> Seq<char> { seq!['s', 'e', 'q'] }
pub open spec fn s_code() -> Seq<char> { seq!['c', 'o', 'd', 'e'] }
pub open spec fn s_fail_p() -> Seq<char> { seq!['f', 'a', 'i', 'l'] }

/// An edge read from child line `c`.
pub open spec fn edge_of(c: KLine, to: Seq<char>, kind: EdgeKindV, line: usize) -> EdgeV {
    EdgeV {
        to,
        kind,
        when: prop_text(c.entries@, s_when()),
        case: prop_text(c.entries@, s_case()),
        seq: prop_u32_spec(c.entries@, s_seq()),
        line,
    }
}

/// A check use read from child line `c`.
pub open spec fn check_use_of(c: KLine, name: Seq<char>, line: usize) -> CheckUseV {
    CheckUseV {
        name,
        fail: prop_u16_spec(c.entries@, s_fail_p()),
        code: prop_text(c.entries@, s_code()),
        to: arrow_spec(args_spec(c.entries@)),
        outcome: prop_text(c.entries@, s_outcome()),
        line,
    }
}

/// What child line `c` (a well formed one) adds to a node.
pub open spec fn child_step(acc: NodeAcc, c: KLine, line: usize) -> NodeAcc {
    let a = args_spec(c.entries@);
    let n = c.name@;
    let when = prop_text(c.entries@, s_when());
    let case = prop_text(c.entries@, s_case());
    if n == s_desc() {
        NodeAcc { desc: if a.len() > 0 { Some(val_text(a[0])) } else { None }, ..acc }
    } else if n == seq!['d', 'o', 'c'] {
        NodeAcc { doc: if a.len() > 0 { Some(val_text(a[0])) } else { None }, ..acc }
    } else if n == s_arrow() {
        if a.len() > 0 {
            NodeAcc { edges: acc.edges.push(edge_of(c, val_text(a[0]), EdgeKindV::Plain, line)), ..acc }
        } else {
            NodeAcc {
                outcomes: acc.outcomes.push(OutcomeV {
                    status: None, code: None, text: prop_text(c.entries@, s_outcome()).unwrap(), when, case, arrow: true, line,
                }),
                ..acc
            }
        }
    } else if n == seq!['o', 'n'] {
        NodeAcc {
            edges: acc.edges.push(edge_of(c, arrow_spec(a).unwrap(), EdgeKindV::On { event: val_text(a[0]) }, line)),
            ..acc
        }
    } else if n == seq!['r', 'e', 't', 'u', 'r', 'n', 's'] {
        let status: Option<u16> = match a[0] { KVal::Int(v) => Some(v as u16), _ => None };
        let tag: Option<Seq<char>> = match a[0] { KVal::Str(t) => Some(t@), _ => None };
        let code = match prop_text(c.entries@, s_code()) { Some(x) => Some(x), None => tag };
        match arrow_spec(a) {
            Some(to) => NodeAcc { edges: acc.edges.push(edge_of(c, to, EdgeKindV::Returns { status, code }, line)), ..acc },
            None => NodeAcc {
                outcomes: acc.outcomes.push(OutcomeV {
                    status, code, text: prop_text(c.entries@, s_outcome()).unwrap(), when, case, arrow: false, line,
                }),
                ..acc
            },
        }
    } else if n == seq!['c', 'a', 'l', 'l', 's'] {
        NodeAcc { edges: acc.edges + a.map_values(|v: KVal| edge_of(c, val_text(v), EdgeKindV::Calls, line)), ..acc }
    } else if n == seq!['r', 'e', 'q', 'u', 'i', 'r', 'e', 's'] {
        NodeAcc {
            checks: acc.checks + a.take(first_arrow(a)).map_values(|v: KVal| check_use_of(c, s_perm_prefix() + val_text(v), line)),
            ..acc
        }
    } else if n == seq!['c', 'h', 'e', 'c', 'k'] {
        NodeAcc { checks: acc.checks.push(check_use_of(c, val_text(a[0]), line)), ..acc }
    } else if n == seq!['s', 'e', 't', 's'] {
        NodeAcc {
            sets: acc.sets.push((val_text(a[0]), if a.len() > 1 { val_text(a[1]) } else { Seq::<char>::empty() }, line)),
            ..acc
        }
    } else {
        NodeAcc { attrs: acc.attrs.insert(n, val_text(a[0])), ..acc }
    }
}

/// The lines `cs` applied in order.
pub open spec fn children_acc(acc: NodeAcc, cs: Seq<KLine>, src: Seq<char>) -> NodeAcc
    decreases cs.len(),
{
    if cs.len() == 0 {
        acc
    } else {
        child_step(children_acc(acc, cs.drop_last(), src), cs.last(), line_of_spec(src, cs.last().offset) as usize)
    }
}

/// What a node's head and child lines add up to.
pub open spec fn node_acc(node: KNode, src: Seq<char>) -> NodeAcc {
    children_acc(
        NodeAcc {
            desc: prop_text(node.head.entries@, s_desc()),
            doc: None,
            attrs: head_attrs(node.head.entries@),
            edges: Seq::empty(),
            checks: Seq::empty(),
            sets: Seq::empty(),
            outcomes: Seq::empty(),
        },
        children_of(node),
        src,
    )
}

/// The parts of a node being read.
pub struct Parts {
    pub desc: Option<String>,
    pub doc: Option<String>,
    pub attrs: Vec<Attr>,
    pub edges: Vec<Edge>,
    pub checks: Vec<CheckUse>,
    pub sets: Vec<SetVar>,
    pub outcomes: Vec<Outcome>,
}

/// `p` holds the values of `acc`.
pub open spec fn parts_are(p: Parts, acc: NodeAcc) -> bool {
    &&& ostr(p.desc) == acc.desc
    &&& ostr(p.doc) == acc.doc
    &&& attrs_wf(p.attrs@)
    &&& attr_map_has(p.attrs@, acc.attrs)
    &&& p.edges@.map_values(|e: Edge| e@) == acc.edges
    &&& p.checks@.map_values(|e: CheckUse| e@) == acc.checks
    &&& p.sets@.map_values(|e: SetVar| e@) == acc.sets
    &&& p.outcomes@.map_values(|e: Outcome| e@) == acc.outcomes
}

fn str_is(s: &String, lit: &str) -> (res: bool)
    ensures
        res == (s@ == lit@),
{
    str_eq(s.as_str(), lit)
}

fn push_edge(parts: &mut Parts, e: Edge)
    ensures
        final(parts).edges@.map_values(|x: Edge| x@) == old(parts).edges@.map_values(|x: Edge| x@).push(e@),
        final(parts).desc == old(parts).desc,
        final(parts).doc == old(parts).doc,
        final(parts).attrs == old(parts).attrs,
        final(parts).checks == old(parts).checks,
        final(parts).sets == old(parts).sets,
        final(parts).outcomes == old(parts).outcomes,
{
    let ghost ev = e@;
    parts.edges.push(e);
    proof {
        assert(parts.edges@.map_values(|x: Edge| x@) =~= old(parts).edges@.map_values(|x: Edge| x@).push(ev));
    }
}

fn push_check(parts: &mut Parts, c: CheckUse)
    ensures
        final(parts).checks@.map_values(|x: CheckUse| x@) == old(parts).checks@.map_values(|x: CheckUse| x@).push(c@),
        final(parts).desc == old(parts).desc,
        final(parts).doc == old(parts).doc,
        final(parts).attrs == old(parts).attrs,
        final(parts).edges == old(parts).edges,
        final(parts).sets == old(parts).sets,
        final(parts).outcomes == old(parts).outcomes,
{
    let ghost cv = c@;
    parts.checks.push(c);
    proof {
        assert(parts.checks@.map_values(|x: CheckUse| x@) =~= old(parts).checks@.map_values(|x: CheckUse| x@).push(cv));
    }
}

fn push_outcome(parts: &mut Parts, o: Outcome)
    ensures
        final(parts).outcomes@.map_values(|x: Outcome| x@) == old(parts).outcomes@.map_values(|x: Outcome| x@).push(o@),
        final(parts).desc == old(parts).desc,
        final(parts).doc == old(parts).doc,
        final(parts).attrs == old(parts).attrs,
        final(parts).edges == old(parts).edges,
        final(parts).checks == old(parts).checks,
        final(parts).sets == old(parts).sets,
{
    let ghost ov = o@;
    parts.outcomes.push(o);
    proof {
        assert(parts.outcomes@.map_values(|x: Outcome| x@) =~= old(parts).outcomes@.map_values(|x: Outcome| x@).push(ov));
    }
}

/// Reads one child line of a node into `parts`.
fn read_child(cx: &Ctx, c: &KLine, parts: &mut Parts, Ghost(acc): Ghost<NodeAcc>) -> (res: Result<(), ParseError>)
    requires
        ctx_ok(*cx),
        parts_are(*old(parts), acc),
    ensures
        res is Ok <==> child_ok(*c),
        res is Ok ==> parts_are(*final(parts), child_step(acc, *c, line_of_spec(cx.src@, c.offset) as usize)),
        res matches Err(e) ==> e matches ParseError::Shape { file, line, msg } && file@ == cx.file@
            && line == line_of_spec(cx.src@, c.offset) && msg@ == child_err(*c),
{
    let line = cx.line(c);
    proof {
        reveal_strlit("when");
        reveal_strlit("case");
        reveal_strlit("seq");
        reveal_strlit("outcome");
        reveal_strlit("code");
        reveal_strlit("fail");
        reveal_strlit("->");
        reveal_strlit("desc");
        reveal_strlit("doc");
        reveal_strlit("on");
        reveal_strlit("returns");
        reveal_strlit("calls");
        reveal_strlit("check");
        reveal_strlit("requires");
        reveal_strlit("sets");
        assert("when"@ =~= s_when());
        assert("case"@ =~= s_case());
        assert("seq"@ =~= s_seq());
        assert("code"@ =~= s_code());
        assert("fail"@ =~= s_fail_p());
        assert("outcome"@ =~= s_outcome());
        assert("->"@ =~= s_arrow());
        assert("desc"@ =~= s_desc());
        assert("doc"@ =~= seq!['d', 'o', 'c']);
        assert("on"@ =~= seq!['o', 'n']);
        assert("returns"@ =~= seq!['r', 'e', 't', 'u', 'r', 'n', 's']);
        assert("calls"@ =~= seq!['c', 'a', 'l', 'l', 's']);
        assert("check"@ =~= seq!['c', 'h', 'e', 'c', 'k']);
        assert("requires"@ =~= seq!['r', 'e', 'q', 'u', 'i', 'r', 'e', 's']);
        assert("sets"@ =~= seq!['s', 'e', 't', 's']);
    }
    let ghost want = child_step(acc, *c, line);
    let a = args(c);
    if str_is(&c.name, "desc") {
        parts.desc = if a.len() > 0 { Some(val_str(&a[0])) } else { None };
    } else if str_is(&c.name, "doc") {
        parts.doc = if a.len() > 0 { Some(val_str(&a[0])) } else { None };
    } else if str_is(&c.name, "->") {
        if a.len() > 0 {
            let e = Edge { to: val_str(&a[0]), kind: EdgeKind::Plain, when: prop_str(c, "when"), case: prop_str(c, "case"), seq: prop_u32(c, "seq"), line };
            push_edge(parts, e);
        } else {
            match prop_str(c, "outcome") {
                Some(text) => {
                    let o = Outcome { status: None, code: None, text, when: prop_str(c, "when"), case: prop_str(c, "case"), arrow: true, line };
                    push_outcome(parts, o);
                },
                None => { return Err(cx.err(c, string_from("`->` needs a target or `outcome=`"))); },
            }
        }
    } else if str_is(&c.name, "on") {
        if a.len() == 0 {
            return Err(cx.err(c, string_from("`on` needs an event ID")));
        }
        let event = val_str(&a[0]);
        match arrow_target(c) {
            Some(to) => {
                let e = Edge { to, kind: EdgeKind::On { event }, when: prop_str(c, "when"), case: prop_str(c, "case"), seq: prop_u32(c, "seq"), line };
                push_edge(parts, e);
            },
            None => { return Err(cx.err(c, string_from("expected `on \"ev\" -> \"target\"`"))); },
        }
    } else if str_is(&c.name, "returns") {
        if a.len() == 0 {
            return Err(cx.err(c, string_from("expected `returns <status|tag> -> \"target\"`")));
        }
        let (status, tag): (Option<u16>, Option<String>) = match &a[0] {
            KVal::Int(v) => {
                if 0 <= *v && *v <= 65535 {
                    (Some(*v as u16), None)
                } else {
                    return Err(cx.err(c, string_from("invalid status")));
                }
            },
            KVal::Str(t) => {
                if str_is(t, "->") {
                    return Err(cx.err(c, string_from("first argument of `returns` must be a status or a tag")));
                }
                (None, Some(t.clone()))
            },
            _ => { return Err(cx.err(c, string_from("first argument of `returns` must be a status or a tag"))); },
        };
        let code = match prop_str(c, "code") {
            Some(x) => Some(x),
            None => tag,
        };
        match arrow_target(c) {
            Some(to) => {
                let e = Edge { to, kind: EdgeKind::Returns { status, code }, when: prop_str(c, "when"), case: prop_str(c, "case"), seq: prop_u32(c, "seq"), line };
                push_edge(parts, e);
            },
            None => match prop_str(c, "outcome") {
                Some(text) => {
                    let o = Outcome { status, code, text, when: prop_str(c, "when"), case: prop_str(c, "case"), arrow: false, line };
                    push_outcome(parts, o);
                },
                None => { return Err(cx.err(c, string_from("`returns` requires `-> \"target\"` or `outcome=\"...\"`"))); },
            },
        }
    } else if str_is(&c.name, "calls") {
        let ghost base = parts.edges@.map_values(|x: Edge| x@);
        let ghost f = |v: KVal| edge_of(*c, val_text(v), EdgeKindV::Calls, line);
        let mut j: usize = 0;
        while j < a.len()
            invariant
                j <= a@.len(),
                a@ == args_spec(c.entries@),
                f == |v: KVal| edge_of(*c, val_text(v), EdgeKindV::Calls, line),
                "when"@ == s_when(),
                "case"@ == s_case(),
                "seq"@ == s_seq(),
                "code"@ == s_code(),
                "fail"@ == s_fail_p(),
                "outcome"@ == s_outcome(),
                parts.edges@.map_values(|x: Edge| x@) == base + a@.take(j as int).map_values(f),
                parts.desc == old(parts).desc,
                parts.doc == old(parts).doc,
                parts.attrs == old(parts).attrs,
                parts.checks == old(parts).checks,
                parts.sets == old(parts).sets,
                parts.outcomes == old(parts).outcomes,
            decreases a.len() - j,
        {
            let e = Edge { to: val_str(&a[j]), kind: EdgeKind::Calls, when: prop_str(c, "when"), case: prop_str(c, "case"), seq: prop_u32(c, "seq"), line };
            proof {
                assert(e@ == f(a@[j as int]));
            }
            push_edge(parts, e);
            proof {
                assert(a@.take(j + 1).map_values(f) =~= a@.take(j as int).map_values(f).push(f(a@[j as int])));
            }
            j += 1;
        }
        proof {
            assert(a@.take(a@.len() as int) =~= a@);
        }
    } else if str_is(&c.name, "requires") {
        let ghost base = parts.checks@.map_values(|x: CheckUse| x@);
        let ghost f = |v: KVal| check_use_of(*c, s_perm_prefix() + val_text(v), line);
        let mut j: usize = 0;
        proof {
            lemma_first_arrow(a@, 0);
        }
        while j < a.len() && !is_arrow_val(&a[j])
            invariant
                j <= a@.len(),
                j <= first_arrow(a@),
                first_arrow(a@) <= a@.len(),
                a@ == args_spec(c.entries@),
                forall|m: int| 0 <= m < first_arrow(a@) ==> !is_arrow(#[trigger] a@[m]),
                first_arrow(a@) < a@.len() ==> is_arrow(a@[first_arrow(a@)]),
                f == |v: KVal| check_use_of(*c, s_perm_prefix() + val_text(v), line),
                "when"@ == s_when(),
                "case"@ == s_case(),
                "seq"@ == s_seq(),
                "code"@ == s_code(),
                "fail"@ == s_fail_p(),
                "outcome"@ == s_outcome(),
                parts.checks@.map_values(|x: CheckUse| x@) == base + a@.take(j as int).map_values(f),
                parts.desc == old(parts).desc,
                parts.doc == old(parts).doc,
                parts.attrs == old(parts).attrs,
                parts.edges == old(parts).edges,
                parts.sets == old(parts).sets,
                parts.outcomes == old(parts).outcomes,
            decreases a.len() - j,
        {
            let v = val_str(&a[j]);
            let cu = CheckUse {
                name: perm_check_id(v.as_str()),
                fail: prop_u16(c, "fail"),
                code: prop_str(c, "code"),
                to: arrow_target(c),
                outcome: prop_str(c, "outcome"),
                line,
            };
            proof {
                assert(cu@ == f(a@[j as int]));
            }
            push_check(parts, cu);
            proof {
                assert(a@.take(j + 1).map_values(f) =~= a@.take(j as int).map_values(f).push(f(a@[j as int])));
            }
            j += 1;
        }
    } else if str_is(&c.name, "check") {
        if a.len() == 0 {
            return Err(cx.err(c, string_from("`check` needs a name")));
        }
        let cu = CheckUse {
            name: val_str(&a[0]),
            fail: prop_u16(c, "fail"),
            code: prop_str(c, "code"),
            to: arrow_target(c),
            outcome: prop_str(c, "outcome"),
            line,
        };
        push_check(parts, cu);
    } else if str_is(&c.name, "sets") {
        if a.len() == 0 {
            return Err(cx.err(c, string_from("expected `sets \"var\" \"value\"`")));
        }
        let value = if a.len() > 1 { val_str(&a[1]) } else { String::new() };
        let sv = SetVar { var: val_str(&a[0]), value, line };
        let ghost svv = sv@;
        parts.sets.push(sv);
        proof {
            assert(parts.sets@.map_values(|x: SetVar| x@) =~= old(parts).sets@.map_values(|x: SetVar| x@).push(svv));
        }
    } else {
        // an unknown child with an argument is kept as an attribute (`method "POST"`)
        if a.len() > 0 {
            attr_insert(&mut parts.attrs, c.name.clone(), val_str(&a[0]));
            proof {
                assert forall|k: Seq<char>| #[trigger] attr_lookup(parts.attrs@, k)
                    == (if want.attrs.dom().contains(k) { Some(want.attrs[k]) } else { None }) by {
                    if k != c.name@ {
                        assert(attr_lookup(old(parts).attrs@, k) == (if acc.attrs.dom().contains(k) { Some(acc.attrs[k]) } else { None }));
                    }
                }
            }
        } else {
            let mut m = string_from("unknown child `");
            push_str(&mut m, c.name.as_str());
            push_char(&mut m, '`');
            proof {
                assert(m@ =~= child_err(*c));
            }
            return Err(cx.err(c, m));
        }
    }
    Ok(())
}

proof fn lemma_first_arrow(a: Seq<KVal>, k: int)
    ensures
        0 <= first_arrow(a) <= a.len(),
        forall|m: int| 0 <= m < first_arrow(a) ==> !is_arrow(#[trigger] a[m]),
        first_arrow(a) < a.len() ==> is_arrow(a[first_arrow(a)]),
    decreases a.len(),
{
    if a.len() > 0 && !is_arrow(a[0]) {
        lemma_first_arrow(a.drop_first(), k);
        assert forall|m: int| 0 <= m < first_arrow(a) implies !is_arrow(#[trigger] a[m]) by {
            if m > 0 {
                assert(a[m] == a.drop_first()[m - 1]);
            }
        }
    }
}

/// `n` holds what node `node` of `src` reads to.
pub open spec fn node_read(n: Node, node: KNode, file: Seq<char>, src: Seq<char>) -> bool {
    let acc = node_acc(node, src);
    &&& Some(n.id@) == first_id_spec(node.head)
    &&& Some(n.kind) == kind_of_name(node.head.name@)
    &&& n.file@ == file
    &&& n.line == line_of_spec(src, node.head.offset)
    &&& n.layer@ == match prop_text(node.head.entries@, s_layer()) {
        Some(l) => l,
        None => default_layer_spec(n.kind),
    }
    &&& ostr(n.desc) == acc.desc
    &&& ostr(n.doc) == acc.doc
    &&& attrs_wf(n.attrs@)
    &&& attr_map_has(n.attrs@, acc.attrs)
    &&& n.edges@.map_values(|e: Edge| e@) == acc.edges
    &&& n.checks@.map_values(|e: CheckUse| e@) == acc.checks
    &&& n.sets@.map_values(|e: SetVar| e@) == acc.sets
    &&& n.outcomes@.map_values(|e: Outcome| e@) == acc.outcomes
}

proof fn lemma_desc_acc(acc: NodeAcc, cs: Seq<KLine>, src: Seq<char>)
    ensures
        children_acc(acc, cs, src).desc == desc_after(acc.desc, cs),
    decreases cs.len(),
{
    if cs.len() > 0 {
        lemma_desc_acc(acc, cs.drop_last(), src);
    }
}

/// The first child line that is not well formed.
pub open spec fn first_bad_child(cs: Seq<KLine>) -> Option<KLine>
    decreases cs.len(),
{
    if cs.len() == 0 {
        None
    } else if !child_ok(cs[0]) {
        Some(cs[0])
    } else {
        first_bad_child(cs.drop_first())
    }
}

/// Reads a `state | action | call | event` node: its ID (which must be a dotted ID), kind,
/// layer (or the kind's default), the head's properties as attributes, then each child line
/// in order. An error names the line: the head's for a bad ID, else the first bad child's.
pub fn parse_node(cx: &Ctx, node: &KNode) -> (res: Result<Node, ParseError>)
    requires
        ctx_ok(*cx),
        kind_of_name(node.head.name@) is Some,
    ensures
        res is Ok <==> ({
            &&& first_id_spec(node.head) matches Some(id) && dotted_ident(id, false)
            &&& forall|i: int| 0 <= i < children_of(*node).len() ==> child_ok(#[trigger] children_of(*node)[i])
        }),
        res matches Ok(n) ==> node_read(n, *node, cx.file@, cx.src@)
            && (match n.desc { Some(d) => node_desc_spec(*node) == Some(d@), None => node_desc_spec(*node) is None }),
        res matches Err(e) ==> e matches ParseError::Shape { file, line, msg } && file@ == cx.file@
            && msg@ == node_err(*node) && line == (
            if first_id_spec(node.head) matches Some(id) && dotted_ident(id, false) {
                line_of_spec(cx.src@, first_bad_child(children_of(*node)).unwrap().offset)
            } else {
                line_of_spec(cx.src@, node.head.offset)
            }),
{
    let kind = match Kind::parse(node.head.name.as_str()) {
        Some(k) => k,
        None => { return Err(cx.err(&node.head, string_from("unknown node kind"))); },
    };
    let id = first_id(cx, &node.head)?;
    if !is_valid_id(id.as_str()) {
        let mut m = string_from("invalid ID `");
        push_str(&mut m, id.as_str());
        push_str(&mut m, "` (allowed: a-z 0-9 _ and dot)");
        proof {
            assert(m@ =~= node_err(*node));
        }
        return Err(cx.err(&node.head, m));
    }
    proof {
        reveal_strlit("layer");
        reveal_strlit("desc");
        assert("layer"@ =~= s_layer());
        assert("desc"@ =~= s_desc());
    }
    let layer = match prop_str(&node.head, "layer") {
        Some(l) => l,
        None => string_from(default_layer(kind)),
    };
    let mut parts = Parts {
        desc: prop_str(&node.head, "desc"),
        doc: None,
        attrs: Vec::new(),
        edges: Vec::new(),
        checks: Vec::new(),
        sets: Vec::new(),
        outcomes: Vec::new(),
    };
    let mut k: usize = 0;
    while k < node.head.entries.len()
        invariant
            k <= node.head.entries@.len(),
            attrs_wf(parts.attrs@),
            attr_map_has(parts.attrs@, head_attrs(node.head.entries@.take(k as int))),
            "layer"@ == s_layer(),
            "desc"@ == s_desc(),
            ostr(parts.desc) == prop_text(node.head.entries@, s_desc()),
            parts.doc is None,
            parts.edges@.len() == 0,
            parts.checks@.len() == 0,
            parts.sets@.len() == 0,
            parts.outcomes@.len() == 0,
        decreases node.head.entries.len() - k,
    {
        let e = &node.head.entries[k];
        proof {
            assert(node.head.entries@.take(k + 1).drop_last() =~= node.head.entries@.take(k as int));
            assert(node.head.entries@.take(k + 1).last() == *e);
        }
        let ghost m0 = head_attrs(node.head.entries@.take(k as int));
        let ghost before = parts.attrs@;
        match &e.name {
            Some(key) => {
                if !str_is(key, "layer") && !str_is(key, "desc") {
                    attr_insert(&mut parts.attrs, key.clone(), val_str(&e.value));
                    proof {
                        let m1 = head_attrs(node.head.entries@.take(k + 1));
                        assert forall|q: Seq<char>| #[trigger] attr_lookup(parts.attrs@, q)
                            == (if m1.dom().contains(q) { Some(m1[q]) } else { None }) by {
                            if q != key@ {
                                assert(attr_lookup(before, q) == (if m0.dom().contains(q) { Some(m0[q]) } else { None }));
                            }
                        }
                    }
                }
            },
            None => {},
        }
        k += 1;
    }
    proof {
        assert(node.head.entries@.take(node.head.entries@.len() as int) =~= node.head.entries@);
    }
    let empty: Vec<KLine> = Vec::new();
    let children = match &node.children {
        Some(cs) => cs,
        None => &empty,
    };
    assert(children@ == children_of(*node));
    let ghost init = NodeAcc {
        desc: prop_text(node.head.entries@, s_desc()),
        doc: None,
        attrs: head_attrs(node.head.entries@),
        edges: Seq::empty(),
        checks: Seq::empty(),
        sets: Seq::empty(),
        outcomes: Seq::empty(),
    };
    proof {
        assert(parts.edges@.map_values(|x: Edge| x@) =~= Seq::<EdgeV>::empty());
        assert(parts.checks@.map_values(|x: CheckUse| x@) =~= Seq::<CheckUseV>::empty());
        assert(parts.sets@.map_values(|x: SetVar| x@) =~= Seq::<(Seq<char>, Seq<char>, usize)>::empty());
        assert(parts.outcomes@.map_values(|x: Outcome| x@) =~= Seq::<OutcomeV>::empty());
        assert(children@.take(0) =~= Seq::<KLine>::empty());
        assert(children@.skip(0) =~= children@);
    }
    let mut i: usize = 0;
    while i < children.len()
        invariant
            ctx_ok(*cx),
            children@ == children_of(*node),
            i <= children@.len(),
            forall|j: int| 0 <= j < i ==> child_ok(#[trigger] children@[j]),
            parts_are(parts, children_acc(init, children@.take(i as int), cx.src@)),
            first_bad_child(children@) == first_bad_child(children@.skip(i as int)),
            first_id_spec(node.head) matches Some(x) && dotted_ident(x, false),
        decreases children.len() - i,
    {
        let c = &children[i];
        proof {
            assert(children@.take(i + 1).drop_last() =~= children@.take(i as int));
            assert(children@.take(i + 1).last() == *c);
            assert(children@.skip(i as int)[0] == *c);
            assert(children@.skip(i as int).drop_first() =~= children@.skip(i + 1));
        }
        let r = read_child(cx, c, &mut parts, Ghost(children_acc(init, children@.take(i as int), cx.src@)));
        match r {
            Ok(()) => {},
            Err(e) => { return Err(e); },
        }
        i += 1;
    }
    proof {
        assert(children@.take(children@.len() as int) =~= children@);
        lemma_desc_acc(init, children@, cx.src@);
    }
    Ok(Node {
        id,
        kind,
        layer,
        desc: parts.desc,
        doc: parts.doc,
        attrs: parts.attrs,
        edges: parts.edges,
        checks: parts.checks,
        sets: parts.sets,
        outcomes: parts.outcomes,
        file: string_from(cx.file),
        line: cx.line(&node.head),
    })
}

/// Words of a space separated property (`values="a b"`, `reads="x y"`).
pub fn words_of(text: &String) -> (res: Vec<String>)
    ensures
        crate::strset::views(res@) == crate::text::words(text@),
{
    crate::text::split_words(text.as_str())
}

/// A definition's description: `desc=`, else the first `desc` child line's argument.
pub open spec fn def_desc_spec(n: KNode) -> Option<Seq<char>> {
    match prop_text(n.head.entries@, s_desc()) {
        Some(d) => Some(d),
        None => child_text_spec(opt_view(n.children), s_desc()),
    }
}

/// A definition's default failure target: `-> "x"`, else `fail_to=`.
pub open spec fn def_fail_to_spec(l: KLine) -> Option<Seq<char>> {
    match arrow_spec(args_spec(l.entries@)) {
        Some(t) => Some(t),
        None => prop_text(l.entries@, seq!['f', 'a', 'i', 'l', '_', 't', 'o']),
    }
}

/// The words of a property, none when it is absent.
pub open spec fn prop_words(es: Seq<KEntry>, name: Seq<char>) -> Seq<Seq<char>> {
    match prop_text(es, name) {
        Some(t) => crate::text::words(t),
        None => Seq::<Seq<char>>::empty(),
    }
}

/// `v` is the var definition read from `n`.
pub open spec fn var_read(v: VarDef, n: KNode, file: Seq<char>, src: Seq<char>) -> bool {
    let es = n.head.entries@;
    &&& Some(v.id@) == first_id_spec(n.head)
    &&& v.ty@ == match prop_text(es, seq!['t', 'y', 'p', 'e']) { Some(t) => t, None => seq!['s', 't', 'r', 'i', 'n', 'g'] }
    &&& ostr(v.desc) == def_desc_spec(n)
    &&& ostr(v.source) == prop_text(es, seq!['s', 'o', 'u', 'r', 'c', 'e'])
    &&& crate::strset::views(v.values@) == prop_words(es, seq!['v', 'a', 'l', 'u', 'e', 's'])
    &&& v.file@ == file
    &&& v.line == line_of_spec(src, n.head.offset)
}

/// `c` is the check definition read from `n`.
pub open spec fn check_read(c: CheckDef, n: KNode, file: Seq<char>, src: Seq<char>) -> bool {
    let es = n.head.entries@;
    &&& Some(c.id@) == first_id_spec(n.head)
    &&& ostr(c.desc) == def_desc_spec(n)
    &&& crate::strset::views(c.reads@) == prop_words(es, seq!['r', 'e', 'a', 'd', 's'])
    &&& ostr(c.fail_to) == def_fail_to_spec(n.head)
    &&& ostr(c.outcome) == prop_text(es, s_outcome())
    &&& c.file@ == file
    &&& c.line == line_of_spec(src, n.head.offset)
}

/// `p` is the perm definition read from `n`.
pub open spec fn perm_read(p: PermDef, n: KNode, file: Seq<char>, src: Seq<char>) -> bool {
    let es = n.head.entries@;
    &&& Some(p.id@) == first_id_spec(n.head)
    &&& ostr(p.desc) == def_desc_spec(n)
    &&& ostr(p.scope) == prop_text(es, seq!['s', 'c', 'o', 'p', 'e'])
    &&& p.deny == prop_u16_spec(es, seq!['d', 'e', 'n', 'y'])
    &&& ostr(p.fail_to) == def_fail_to_spec(n.head)
    &&& ostr(p.outcome) == prop_text(es, s_outcome())
    &&& p.file@ == file
    &&& p.line == line_of_spec(src, n.head.offset)
}

/// `r` is the root read from `n`.
pub open spec fn root_read(r: RootDef, n: KNode, file: Seq<char>, src: Seq<char>) -> bool {
    &&& Some(r.id@) == first_id_spec(n.head)
    &&& ostr(r.desc) == def_desc_spec(n)
    &&& ostr(r.every) == prop_text(n.head.entries@, seq!['e', 'v', 'e', 'r', 'y'])
    &&& r.file@ == file
    &&& r.line == line_of_spec(src, n.head.offset)
}

/// `v` is the view read from `n`.
pub open spec fn view_read(v: ViewDef, n: KNode, file: Seq<char>, src: Seq<char>) -> bool {
    &&& Some(v.id@) == first_id_spec(n.head)
    &&& Some(v.from@) == prop_text(n.head.entries@, seq!['f', 'r', 'o', 'm'])
    &&& Some(v.to@) == prop_text(n.head.entries@, seq!['t', 'o'])
    &&& ostr(v.desc) == def_desc_spec(n)
    &&& v.file@ == file
    &&& v.line == line_of_spec(src, n.head.offset)
}

/// The description of a definition: `desc=` or a `desc` child line.
fn def_desc(n: &KNode) -> (res: Option<String>)
    ensures
        ostr(res) == def_desc_spec(*n),
{
    proof {
        reveal_strlit("desc");
        assert("desc"@ =~= s_desc());
    }
    match prop_str(&n.head, "desc") {
        Some(d) => Some(d),
        None => child_str(n, "desc"),
    }
}

/// The default failure target of a definition: `-> "x"` or `fail_to=`.
fn def_fail_to(l: &KLine) -> (res: Option<String>)
    ensures
        ostr(res) == def_fail_to_spec(*l),
{
    proof {
        reveal_strlit("fail_to");
        assert("fail_to"@ =~= seq!['f', 'a', 'i', 'l', '_', 't', 'o']);
    }
    match arrow_target(l) {
        Some(t) => Some(t),
        None => prop_str(l, "fail_to"),
    }
}

fn parse_var(cx: &Ctx, node: &KNode) -> (res: Result<VarDef, ParseError>)
    requires
        ctx_ok(*cx),
    ensures
        res is Ok <==> (first_id_spec(node.head) matches Some(id) && dotted_ident(id, false)),
        res matches Ok(v) ==> var_read(v, *node, cx.file@, cx.src@),
        res matches Err(e) ==> (e matches ParseError::Shape { file, line, msg } && file@ == cx.file@
            && line == line_of_spec(cx.src@, node.head.offset) && msg@ == def_err(*node, "invalid var ID `"@)),
{
    proof {
        reveal_strlit("type");
        reveal_strlit("string");
        reveal_strlit("values");
        reveal_strlit("source");
        assert("type"@ =~= seq!['t', 'y', 'p', 'e']);
        assert("string"@ =~= seq!['s', 't', 'r', 'i', 'n', 'g']);
        assert("values"@ =~= seq!['v', 'a', 'l', 'u', 'e', 's']);
        assert("source"@ =~= seq!['s', 'o', 'u', 'r', 'c', 'e']);
    }
    let id = first_id(cx, &node.head)?;
    if !is_valid_id(id.as_str()) {
        let mut m = string_from("invalid var ID `");
        push_str(&mut m, id.as_str());
        push_char(&mut m, '`');
        proof {
            assert(m@ =~= def_err(*node, "invalid var ID `"@));
        }
        return Err(cx.err(&node.head, m));
    }
    let ty = match prop_str(&node.head, "type") {
        Some(t) => t,
        None => string_from("string"),
    };
    let values = match prop_str(&node.head, "values") {
        Some(v) => words_of(&v),
        None => Vec::new(),
    };
    proof {
        assert(crate::strset::views(values@) =~= prop_words(node.head.entries@, seq!['v', 'a', 'l', 'u', 'e', 's']));
    }
    Ok(VarDef {
        id,
        ty,
        desc: def_desc(node),
        source: prop_str(&node.head, "source"),
        values,
        file: string_from(cx.file),
        line: cx.line(&node.head),
    })
}

fn parse_check(cx: &Ctx, node: &KNode) -> (res: Result<CheckDef, ParseError>)
    requires
        ctx_ok(*cx),
    ensures
        res is Ok <==> (first_id_spec(node.head) matches Some(id) && dotted_ident(id, true)),
        res matches Ok(c) ==> check_read(c, *node, cx.file@, cx.src@),
        res matches Err(e) ==> (e matches ParseError::Shape { file, line, msg } && file@ == cx.file@
            && line == line_of_spec(cx.src@, node.head.offset) && msg@ == def_err(*node, "invalid check ID `"@)),
{
    proof {
        reveal_strlit("reads");
        reveal_strlit("outcome");
        assert("reads"@ =~= seq!['r', 'e', 'a', 'd', 's']);
        assert("outcome"@ =~= s_outcome());
    }
    let id = first_id(cx, &node.head)?;
    if !is_valid_check_id(id.as_str()) {
        let mut m = string_from("invalid check ID `");
        push_str(&mut m, id.as_str());
        push_char(&mut m, '`');
        proof {
            assert(m@ =~= def_err(*node, "invalid check ID `"@));
        }
        return Err(cx.err(&node.head, m));
    }
    let reads = match prop_str(&node.head, "reads") {
        Some(v) => words_of(&v),
        None => Vec::new(),
    };
    proof {
        assert(crate::strset::views(reads@) =~= prop_words(node.head.entries@, seq!['r', 'e', 'a', 'd', 's']));
    }
    Ok(CheckDef {
        id,
        desc: def_desc(node),
        reads,
        fail_to: def_fail_to(&node.head),
        outcome: prop_str(&node.head, "outcome"),
        file: string_from(cx.file),
        line: cx.line(&node.head),
    })
}

fn parse_perm(cx: &Ctx, node: &KNode) -> (res: Result<PermDef, ParseError>)
    requires
        ctx_ok(*cx),
    ensures
        res is Ok <==> (first_id_spec(node.head) matches Some(id) && dotted_ident(id, false)),
        res matches Ok(p) ==> perm_read(p, *node, cx.file@, cx.src@),
        res matches Err(e) ==> (e matches ParseError::Shape { file, line, msg } && file@ == cx.file@
            && line == line_of_spec(cx.src@, node.head.offset) && msg@ == def_err(*node, "invalid perm ID `"@)),
{
    proof {
        reveal_strlit("deny");
        reveal_strlit("scope");
        reveal_strlit("outcome");
        assert("deny"@ =~= seq!['d', 'e', 'n', 'y']);
        assert("scope"@ =~= seq!['s', 'c', 'o', 'p', 'e']);
        assert("outcome"@ =~= s_outcome());
    }
    let id = first_id(cx, &node.head)?;
    if !is_valid_id(id.as_str()) {
        let mut m = string_from("invalid perm ID `");
        push_str(&mut m, id.as_str());
        push_char(&mut m, '`');
        proof {
            assert(m@ =~= def_err(*node, "invalid perm ID `"@));
        }
        return Err(cx.err(&node.head, m));
    }
    Ok(PermDef {
        id,
        desc: def_desc(node),
        scope: prop_str(&node.head, "scope"),
        deny: prop_u16(&node.head, "deny"),
        fail_to: def_fail_to(&node.head),
        outcome: prop_str(&node.head, "outcome"),
        file: string_from(cx.file),
        line: cx.line(&node.head),
    })
}

pub open spec fn s_layers() -> Seq<char> { seq!['l', 'a', 'y', 'e', 'r', 's'] }
pub open spec fn s_watch() -> Seq<char> { seq!['w', 'a', 't', 'c', 'h'] }

/// The texts of a list of values.
pub open spec fn texts(a: Seq<KVal>) -> Seq<Seq<char>> {
    a.map_values(|v: KVal| val_text(v))
}

/// The arguments of every `watch` line, in order.
pub open spec fn watch_spec(cs: Seq<KLine>) -> Seq<Seq<char>>
    decreases cs.len(),
{
    if cs.len() == 0 {
        Seq::<Seq<char>>::empty()
    } else if cs.last().name@ == s_watch() {
        watch_spec(cs.drop_last()) + texts(args_spec(cs.last().entries@))
    } else {
        watch_spec(cs.drop_last())
    }
}

/// The project name: the first argument, else `flows`.
pub open spec fn project_name_spec(l: KLine) -> Seq<char> {
    let a = args_spec(l.entries@);
    if a.len() > 0 { val_text(a[0]) } else { seq!['f', 'l', 'o', 'w', 's'] }
}

/// The layers: the arguments of the first `layers` line, else the default three.
pub open spec fn project_layers_spec(cs: Seq<KLine>) -> Seq<Seq<char>> {
    match first_named(cs, s_layers()) {
        Some(l) => texts(args_spec(l.entries@)),
        None => crate::model::default_layers(),
    }
}

/// The texts of `a`, in order.
fn texts_of(a: &Vec<KVal>) -> (res: Vec<String>)
    ensures
        res@.map_values(|s: String| s@) == texts(a@),
{
    let mut out: Vec<String> = Vec::new();
    let mut j: usize = 0;
    while j < a.len()
        invariant
            j <= a@.len(),
            out@.map_values(|s: String| s@) == texts(a@.take(j as int)),
        decreases a.len() - j,
    {
        let t = val_str(&a[j]);
        let ghost before = out@;
        out.push(t);
        proof {
            assert(a@.take(j + 1) =~= a@.take(j as int).push(a@[j as int]));
            assert(out@ =~= before.push(t));
            assert(texts(a@.take(j + 1)) =~= texts(a@.take(j as int)).push(val_text(a@[j as int])));
            assert(out@.map_values(|s: String| s@) =~= before.map_values(|s: String| s@).push(t@));
        }
        j += 1;
    }
    proof {
        assert(a@.take(a@.len() as int) =~= a@);
    }
    out
}

/// `project "name" { layers ...; watch ... }`: the name, the first `layers` line's
/// arguments, and the arguments of every `watch` line in order.
fn parse_project(node: &KNode) -> (res: ProjectConfig)
    ensures
        res.name@ == project_name_spec(node.head),
        res.layers@.map_values(|s: String| s@) == project_layers_spec(children_of(*node)),
        res.watch@.map_values(|s: String| s@) == watch_spec(children_of(*node)),
        res.max_roots == 10,
{
    proof {
        reveal_strlit("layers");
        reveal_strlit("watch");
        assert("layers"@ =~= s_layers());
        assert("watch"@ =~= s_watch());
    }
    let mut cfg = ProjectConfig::default();
    let a = args(&node.head);
    if a.len() > 0 {
        cfg.name = val_str(&a[0]);
    }
    let empty: Vec<KLine> = Vec::new();
    let cs = match &node.children {
        Some(cs) => cs,
        None => &empty,
    };
    assert(cs@ == children_of(*node));
    let mut layers_seen = false;
    let mut i: usize = 0;
    while i < cs.len()
        invariant
            i <= cs@.len(),
            cfg.max_roots == 10,
            cfg.name@ == project_name_spec(node.head),
            cfg.watch@.map_values(|s: String| s@) == watch_spec(cs@.take(i as int)),
            layers_seen == (first_named(cs@.take(i as int), s_layers()) is Some),
            cfg.layers@.map_values(|s: String| s@) == match first_named(cs@.take(i as int), s_layers()) {
                Some(l) => texts(args_spec(l.entries@)),
                None => crate::model::default_layers(),
            },
        decreases cs.len() - i,
    {
        let c = &cs[i];
        let ca = args(c);
        proof {
            reveal_strlit("layers");
            reveal_strlit("watch");
            assert("layers"@ =~= s_layers());
            assert("watch"@ =~= s_watch());
            lemma_first_named_push(cs@.take(i as int), cs@[i as int], s_layers());
            assert(cs@.take(i + 1) =~= cs@.take(i as int).push(cs@[i as int]));
            assert(cs@.take(i + 1).drop_last() =~= cs@.take(i as int));
        }
        if str_is(&c.name, "layers") && !layers_seen {
            layers_seen = true;
            cfg.layers = texts_of(&ca);
        } else if str_is(&c.name, "watch") {
            let mut w = texts_of(&ca);
            let ghost before = cfg.watch@;
            let ghost wv = w@;
            cfg.watch.append(&mut w);
            proof {
                assert(cfg.watch@ =~= before + wv);
                assert(cfg.watch@.map_values(|s: String| s@) =~= before.map_values(|s: String| s@) + wv.map_values(|s: String| s@));
            }
        }
        proof {
            let t1 = cs@.take(i + 1);
            assert(t1.last() == cs@[i as int]);
            assert(t1.drop_last() =~= cs@.take(i as int));
        }
        i += 1;
    }
    proof {
        assert(cs@.take(cs@.len() as int) =~= cs@);
    }
    cfg
}

proof fn lemma_first_named_push(cs: Seq<KLine>, c: KLine, name: Seq<char>)
    ensures
        first_named(cs.push(c), name) == match first_named(cs, name) {
            Some(x) => Some(x),
            None => if c.name@ == name { Some(c) } else { None },
        },
    decreases cs.len(),
{
    let p = cs.push(c);
    if cs.len() > 0 {
        assert(p.drop_first() =~= cs.drop_first().push(c));
        assert(p[0] == cs[0]);
        lemma_first_named_push(cs.drop_first(), c, name);
    } else {
        assert(p.drop_first() =~= Seq::<KLine>::empty());
        assert(p[0] == c);
        assert(first_named(p.drop_first(), name) is None);
    }
}

pub open spec fn is_node_kind(k: KNode) -> bool {
    kind_of_name(k.head.name@) is Some
}

/// The top-level nodes that satisfy `pred`, in order.
pub open spec fn select(doc: Seq<KNode>, pred: spec_fn(KNode) -> bool) -> Seq<KNode>
    decreases doc.len(),
{
    if doc.len() == 0 {
        Seq::<KNode>::empty()
    } else {
        let r = select(doc.drop_last(), pred);
        if pred(doc.last()) { r.push(doc.last()) } else { r }
    }
}

/// The last top-level node called `name`.
pub open spec fn last_named(doc: Seq<KNode>, name: Seq<char>) -> Option<KNode>
    decreases doc.len(),
{
    if doc.len() == 0 {
        None
    } else if doc.last().head.name@ == name {
        Some(doc.last())
    } else {
        last_named(doc.drop_last(), name)
    }
}

pub open spec fn s_var() -> Seq<char> { seq!['v', 'a', 'r'] }
pub open spec fn s_check() -> Seq<char> { seq!['c', 'h', 'e', 'c', 'k'] }
pub open spec fn s_perm() -> Seq<char> { seq!['p', 'e', 'r', 'm'] }
pub open spec fn s_root() -> Seq<char> { seq!['r', 'o', 'o', 't'] }
pub open spec fn s_view() -> Seq<char> { seq!['v', 'i', 'e', 'w'] }
pub open spec fn s_project() -> Seq<char> { seq!['p', 'r', 'o', 'j', 'e', 'c', 't'] }

/// A top-level node reads without error.
pub open spec fn top_ok(k: KNode) -> bool {
    let n = k.head.name@;
    if is_node_kind(k) {
        &&& first_id_spec(k.head) matches Some(id) && dotted_ident(id, false)
        &&& forall|i: int| 0 <= i < children_of(k).len() ==> child_ok(#[trigger] children_of(k)[i])
    } else if n == s_var() || n == s_perm() {
        first_id_spec(k.head) matches Some(id) && dotted_ident(id, false)
    } else if n == s_check() {
        first_id_spec(k.head) matches Some(id) && dotted_ident(id, true)
    } else if n == s_root() {
        first_id_spec(k.head) is Some
    } else if n == s_view() {
        first_id_spec(k.head) is Some && prop_text(k.head.entries@, seq!['f', 'r', 'o', 'm']) is Some
            && prop_text(k.head.entries@, seq!['t', 'o']) is Some
    } else {
        n == s_project()
    }
}

/// The refusal of a top-level node that does not read (see `top_ok`).
pub open spec fn top_err_msg(k: KNode) -> Seq<char> {
    let n = k.head.name@;
    if is_node_kind(k) {
        node_err(k)
    } else if n == s_var() {
        def_err(k, "invalid var ID `"@)
    } else if n == s_check() {
        def_err(k, "invalid check ID `"@)
    } else if n == s_perm() {
        def_err(k, "invalid perm ID `"@)
    } else if n == s_root() {
        id_err(k.head)
    } else if n == s_view() {
        if first_id_spec(k.head) is None {
            id_err(k.head)
        } else if prop_text(k.head.entries@, seq!['f', 'r', 'o', 'm']) is None {
            "view requires `from`"@
        } else {
            "view requires `to`"@
        }
    } else {
        ("unknown top-level node `"@ + n).push('`')
    }
}

/// The line an error in top-level node `k` names: a bad child's, else the head's.
pub open spec fn top_err_line(k: KNode, src: Seq<char>) -> nat {
    if is_node_kind(k) && (first_id_spec(k.head) matches Some(id) && dotted_ident(id, false)) {
        line_of_spec(src, first_bad_child(children_of(k)).unwrap().offset)
    } else {
        line_of_spec(src, k.head.offset)
    }
}

/// The first top-level node that does not read.
pub open spec fn first_bad_top(doc: Seq<KNode>) -> Option<KNode>
    decreases doc.len(),
{
    if doc.len() == 0 {
        None
    } else if !top_ok(doc[0]) {
        Some(doc[0])
    } else {
        first_bad_top(doc.drop_first())
    }
}

/// `c` is the project settings read from `p`.
pub open spec fn project_read(c: ProjectConfig, p: KNode) -> bool {
    &&& c.name@ == project_name_spec(p.head)
    &&& c.layers@.map_values(|s: String| s@) == project_layers_spec(children_of(p))
    &&& c.watch@.map_values(|s: String| s@) == watch_spec(children_of(p))
    &&& c.max_roots == 10
}

/// The top-level nodes called `name`.
pub open spec fn named_p(name: Seq<char>) -> spec_fn(KNode) -> bool {
    |k: KNode| k.head.name@ == name
}

pub open spec fn kind_p() -> spec_fn(KNode) -> bool {
    |k: KNode| is_node_kind(k)
}

/// `xs` holds, in order, what each of `sel` reads to.
pub open spec fn col_read<T>(xs: Seq<T>, sel: Seq<KNode>, f: spec_fn(T, KNode) -> bool) -> bool {
    &&& xs.len() == sel.len()
    &&& forall|i: int| 0 <= i < sel.len() ==> #[trigger] f(xs[i], sel[i])
}

pub open spec fn node_f(file: Seq<char>, src: Seq<char>) -> spec_fn(Node, KNode) -> bool {
    |n: Node, k: KNode| node_read(n, k, file, src)
}

pub open spec fn var_f(file: Seq<char>, src: Seq<char>) -> spec_fn(VarDef, KNode) -> bool {
    |n: VarDef, k: KNode| var_read(n, k, file, src)
}

pub open spec fn check_f(file: Seq<char>, src: Seq<char>) -> spec_fn(CheckDef, KNode) -> bool {
    |n: CheckDef, k: KNode| check_read(n, k, file, src)
}

pub open spec fn perm_f(file: Seq<char>, src: Seq<char>) -> spec_fn(PermDef, KNode) -> bool {
    |n: PermDef, k: KNode| perm_read(n, k, file, src)
}

pub open spec fn root_f(file: Seq<char>, src: Seq<char>) -> spec_fn(RootDef, KNode) -> bool {
    |n: RootDef, k: KNode| root_read(n, k, file, src)
}

pub open spec fn view_f(file: Seq<char>, src: Seq<char>) -> spec_fn(ViewDef, KNode) -> bool {
    |n: ViewDef, k: KNode| view_read(n, k, file, src)
}

/// `it` holds what the top-level nodes `doc` of file `file` read to: the graph nodes, vars,
/// checks, perms, roots and views, each kind in order, and the last `project` block.
pub open spec fn items_read(it: FileItems, doc: Seq<KNode>, file: Seq<char>, src: Seq<char>) -> bool {
    &&& col_read(it.nodes@, select(doc, kind_p()), node_f(file, src))
    &&& col_read(it.vars@, select(doc, named_p(s_var())), var_f(file, src))
    &&& col_read(it.checks@, select(doc, named_p(s_check())), check_f(file, src))
    &&& col_read(it.perms@, select(doc, named_p(s_perm())), perm_f(file, src))
    &&& col_read(it.roots@, select(doc, named_p(s_root())), root_f(file, src))
    &&& col_read(it.views@, select(doc, named_p(s_view())), view_f(file, src))
    &&& match last_named(doc, s_project()) {
        Some(p) => it.config matches Some(c) && project_read(c, p),
        None => it.config is None,
    }
}

proof fn lemma_col_push<T>(xs: Seq<T>, sel: Seq<KNode>, f: spec_fn(T, KNode) -> bool, x: T, k: KNode)
    requires
        col_read(xs, sel, f),
        f(x, k),
    ensures
        col_read(xs.push(x), sel.push(k), f),
{
    assert forall|i: int| 0 <= i < sel.push(k).len() implies #[trigger] f(xs.push(x)[i], sel.push(k)[i]) by {
        if i < sel.len() {
            assert(xs.push(x)[i] == xs[i] && sel.push(k)[i] == sel[i]);
        }
    }
}

/// Reads every top-level node of a file; the first node that does not read stops it.
pub fn parse_items(cx: &Ctx, doc: &Vec<KNode>) -> (res: Result<FileItems, ParseError>)
    requires
        ctx_ok(*cx),
    ensures
        res is Ok <==> forall|i: int| 0 <= i < doc@.len() ==> top_ok(#[trigger] doc@[i]),
        res matches Ok(it) ==> items_read(it, doc@, cx.file@, cx.src@),
        res matches Ok(it) ==> {
            &&& forall|i: int| 0 <= i < it.nodes@.len() ==> (#[trigger] it.nodes@[i]).file@ == cx.file@
                && attrs_wf(it.nodes@[i].attrs@) && dotted_ident(it.nodes@[i].id@, false)
            &&& forall|i: int| 0 <= i < it.vars@.len() ==> (#[trigger] it.vars@[i]).file@ == cx.file@
            &&& forall|i: int| 0 <= i < it.checks@.len() ==> (#[trigger] it.checks@[i]).file@ == cx.file@
            &&& forall|i: int| 0 <= i < it.perms@.len() ==> (#[trigger] it.perms@[i]).file@ == cx.file@
        },
        res matches Err(e) ==> (e matches ParseError::Shape { file, line, msg } && file@ == cx.file@
            && line == top_err_line(first_bad_top(doc@).unwrap(), cx.src@)
            && msg@ == top_err_msg(first_bad_top(doc@).unwrap())),
{
    proof {
        reveal_strlit("var");
        reveal_strlit("check");
        reveal_strlit("perm");
        reveal_strlit("root");
        reveal_strlit("view");
        reveal_strlit("project");
        reveal_strlit("every");
        reveal_strlit("from");
        reveal_strlit("to");
        assert("var"@ =~= s_var());
        assert("check"@ =~= s_check());
        assert("perm"@ =~= s_perm());
        assert("root"@ =~= s_root());
        assert("view"@ =~= s_view());
        assert("project"@ =~= s_project());
        assert("every"@ =~= seq!['e', 'v', 'e', 'r', 'y']);
        assert("from"@ =~= seq!['f', 'r', 'o', 'm']);
        assert("to"@ =~= seq!['t', 'o']);
    }
    let mut items = FileItems {
        nodes: Vec::new(),
        vars: Vec::new(),
        checks: Vec::new(),
        perms: Vec::new(),
        roots: Vec::new(),
        views: Vec::new(),
        config: None,
    };
    proof {
        assert(doc@.take(0) =~= Seq::<KNode>::empty());
        assert(doc@.skip(0) =~= doc@);
    }
    let mut i: usize = 0;
    while i < doc.len()
        invariant
            ctx_ok(*cx),
            i <= doc@.len(),
            "var"@ == s_var(),
            "check"@ == s_check(),
            "perm"@ == s_perm(),
            "root"@ == s_root(),
            "view"@ == s_view(),
            "project"@ == s_project(),
            "every"@ == seq!['e', 'v', 'e', 'r', 'y'],
            "from"@ == seq!['f', 'r', 'o', 'm'],
            "to"@ == seq!['t', 'o'],
            forall|j: int| 0 <= j < i ==> top_ok(#[trigger] doc@[j]),
            first_bad_top(doc@) == first_bad_top(doc@.skip(i as int)),
            items_read(items, doc@.take(i as int), cx.file@, cx.src@),
            forall|k: int| 0 <= k < items.nodes@.len() ==> (#[trigger] items.nodes@[k]).file@ == cx.file@
                && attrs_wf(items.nodes@[k].attrs@) && dotted_ident(items.nodes@[k].id@, false),
            forall|k: int| 0 <= k < items.vars@.len() ==> (#[trigger] items.vars@[k]).file@ == cx.file@,
            forall|k: int| 0 <= k < items.checks@.len() ==> (#[trigger] items.checks@[k]).file@ == cx.file@,
            forall|k: int| 0 <= k < items.perms@.len() ==> (#[trigger] items.perms@[k]).file@ == cx.file@,
        decreases doc.len() - i,
    {
        let node = &doc[i];
        let name = &node.head.name;
        let ghost t0 = doc@.take(i as int);
        let ghost t1 = doc@.take(i + 1);
        proof {
            assert(t1.drop_last() =~= t0);
            assert(t1.last() == *node);
            assert(doc@.skip(i as int)[0] == *node);
            assert(doc@.skip(i as int).drop_first() =~= doc@.skip(i + 1));
        }
        let ghost before = items;
        if Kind::parse(name.as_str()).is_some() {
            let n = parse_node(cx, node)?;
            let ghost nv = n;
            items.nodes.push(n);
            proof { lemma_col_push(before.nodes@, select(t0, kind_p()), node_f(cx.file@, cx.src@), nv, *node); }
        } else if str_is(name, "var") {
            let v = parse_var(cx, node)?;
            let ghost vv = v;
            items.vars.push(v);
            proof { lemma_col_push(before.vars@, select(t0, named_p(s_var())), var_f(cx.file@, cx.src@), vv, *node); }
        } else if str_is(name, "check") {
            let c = parse_check(cx, node)?;
            let ghost cv = c;
            items.checks.push(c);
            proof { lemma_col_push(before.checks@, select(t0, named_p(s_check())), check_f(cx.file@, cx.src@), cv, *node); }
        } else if str_is(name, "perm") {
            let p = parse_perm(cx, node)?;
            let ghost pv = p;
            items.perms.push(p);
            proof { lemma_col_push(before.perms@, select(t0, named_p(s_perm())), perm_f(cx.file@, cx.src@), pv, *node); }
        } else if str_is(name, "root") {
            let id = first_id(cx, &node.head)?;
            let r = RootDef {
                id,
                desc: def_desc(node),
                every: prop_str(&node.head, "every"),
                file: string_from(cx.file),
                line: cx.line(&node.head),
            };
            let ghost rv = r;
            items.roots.push(r);
            proof { lemma_col_push(before.roots@, select(t0, named_p(s_root())), root_f(cx.file@, cx.src@), rv, *node); }
        } else if str_is(name, "view") {
            let id = first_id(cx, &node.head)?;
            let from = match prop_str(&node.head, "from") {
                Some(f) => f,
                None => { return Err(cx.err(&node.head, string_from("view requires `from`"))); },
            };
            let to = match prop_str(&node.head, "to") {
                Some(t) => t,
                None => { return Err(cx.err(&node.head, string_from("view requires `to`"))); },
            };
            let w = ViewDef {
                id,
                from,
                to,
                desc: def_desc(node),
                file: string_from(cx.file),
                line: cx.line(&node.head),
            };
            let ghost wv = w;
            items.views.push(w);
            proof { lemma_col_push(before.views@, select(t0, named_p(s_view())), view_f(cx.file@, cx.src@), wv, *node); }
        } else if str_is(name, "project") {
            items.config = Some(parse_project(node));
        } else {
            let mut m = string_from("unknown top-level node `");
            push_str(&mut m, name.as_str());
            push_char(&mut m, '`');
            proof {
                assert(m@ =~= top_err_msg(*node));
            }
            return Err(cx.err(&node.head, m));
        }
        i += 1;
    }
    proof {
        assert(doc@.take(doc@.len() as int) =~= doc@);
    }
    Ok(items)
}

/// What reading one file's top-level nodes `ns` gives: success exactly when every
/// top-level node is well-formed, the items read from them on success, and the
/// line of the first bad node on failure.
pub open spec fn file_read(res: Result<FileItems, ParseError>, ns: Seq<KNode>, file: Seq<char>, src: Seq<char>) -> bool {
    &&& res is Ok <==> forall|i: int| 0 <= i < ns.len() ==> top_ok(#[trigger] ns[i])
    &&& res matches Ok(it) ==> items_read(it, ns, file, src)
    &&& res matches Err(e) ==> (e matches ParseError::Shape { file: f, line, msg } && f@ == file
        && line == top_err_line(first_bad_top(ns).unwrap(), src)
        && msg@ == top_err_msg(first_bad_top(ns).unwrap()))
}

/// The nodes `ns` carry the same lines as the document's nodes `ks`.
pub open spec fn same_lines(ns: Seq<KNode>, ks: Seq<KNode>) -> bool {
    &&& ns.len() == ks.len()
    &&& forall|i: int| 0 <= i < ns.len() ==> (#[trigger] ns[i]).head == ks[i].head
        && match (ns[i].children, ks[i].children) {
            (Some(a), Some(b)) => a@ == b@,
            (None, None) => true,
            _ => false,
        }
}

/// What reading one `.kdl` file `file` with text `src` gives (see `parse_file`): a KDL
/// syntax error exactly when `kdl` rejects the text, at the line of its first diagnostic;
/// otherwise what `file_read` says of the document's top-level nodes; and every item
/// read carries the file's name.
pub open spec fn parse_outcome(file: Seq<char>, src: Seq<char>, res: Result<FileItems, ParseError>) -> bool {
    &&& (res matches Err(ParseError::Syntax { .. })) <==> kdl_document(src) is Err
    &&& res matches Err(ParseError::Syntax { file: f, line, .. }) ==> f@ == file && line == match kdl_document(src) {
        Err(e) => match e.offset { Some(o) => line_of_spec(src, o), None => 1 },
        Ok(_) => 0,
    }
    &&& res matches Err(ParseError::Syntax { msg, .. }) ==> msg@ == match kdl_document(src) {
        Err(e) => match e.message { Some(m) => m@, None => "invalid KDL"@ },
        Ok(_) => Seq::<char>::empty(),
    }
    &&& kdl_document(src) matches Ok(ks) ==> exists|ns: Seq<KNode>|
        #[trigger] same_lines(ns, ks) && file_read(res, ns, file, src)
    &&& res matches Ok(it) ==> {
        &&& forall|i: int| 0 <= i < it.nodes@.len() ==> (#[trigger] it.nodes@[i]).file@ == file
            && attrs_wf(it.nodes@[i].attrs@) && dotted_ident(it.nodes@[i].id@, false)
        &&& forall|i: int| 0 <= i < it.vars@.len() ==> (#[trigger] it.vars@[i]).file@ == file
        &&& forall|i: int| 0 <= i < it.checks@.len() ==> (#[trigger] it.checks@[i]).file@ == file
        &&& forall|i: int| 0 <= i < it.perms@.len() ==> (#[trigger] it.perms@[i]).file@ == file
    }
}

/// A text reads without error: `kdl` accepts it and every top-level node is well-formed.
pub open spec fn parses(src: Seq<char>) -> bool {
    kdl_document(src) matches Ok(ks) && forall|i: int| 0 <= i < ks.len() ==> top_ok(#[trigger] ks[i])
}

/// Reading succeeds exactly on the texts that parse.
pub proof fn lemma_outcome_ok(file: Seq<char>, src: Seq<char>, res: Result<FileItems, ParseError>)
    requires
        parse_outcome(file, src, res),
    ensures
        res is Ok <==> parses(src),
{
    if let Ok(ks) = kdl_document(src) {
        let ns = choose|ns: Seq<KNode>| #[trigger] same_lines(ns, ks) && file_read(res, ns, file, src);
        assert forall|i: int| 0 <= i < ns.len() implies top_ok(#[trigger] ns[i]) == top_ok(ks[i]) by {
            assert(ns[i].head == ks[i].head);
            assert(children_of(ns[i]) == children_of(ks[i]));
        }
        if res is Ok {
            assert forall|i: int| 0 <= i < ks.len() implies top_ok(#[trigger] ks[i]) by {
                assert(top_ok(ns[i]));
            }
        }
        if parses(src) {
            assert forall|i: int| 0 <= i < ns.len() implies top_ok(#[trigger] ns[i]) by {
                assert(top_ok(ks[i]));
            }
        }
    }
}

/// Reads one `.kdl` file. A KDL syntax error becomes `ParseError::Syntax` at the line of the
/// first diagnostic (line 1, "invalid KDL" when there is none); otherwise the document's
/// top-level nodes are read in order (`parse_items`).
pub fn parse_file(file: &str, src: &str) -> (res: Result<FileItems, ParseError>)
    requires
        src.spec_bytes().len() < usize::MAX,
    ensures
        parse_outcome(file@, src@, res),
{
    let cx = Ctx { file, src };
    match kdl_parse(src) {
        Err(e) => {
            let line = match e.offset {
                Some(o) => line_of(src, o),
                None => 1,
            };
            let msg = match e.message {
                Some(m) => m,
                None => string_from("invalid KDL"),
            };
            Err(ParseError::Syntax { file: string_from(file), line, msg })
        },
        Ok(d) => {
            let doc = kdl_node_lines(&d);
            proof {
                assert(same_lines(doc@, kdl_nodes(d)));
            }
            let r = parse_items(&cx, &doc);
            proof {
                assert(file_read(r, doc@, file@, src@));
                assert(kdl_document(src@) == Ok::<Seq<KNode>, KdlFailure>(kdl_nodes(d)));
                assert(same_lines(doc@, kdl_document(src@)->Ok_0));
            }
            r
        },
    }
}

} // verus!
