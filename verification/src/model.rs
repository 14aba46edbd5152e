//! The graph model: nodes, edges, variables, checks, permissions, roots, views.
//! Values read from one file; `graph` builds the index over them.

use vstd::prelude::*;
use crate::table::Keyed;
use crate::text::{split_on, split_chars, chars_of, is_ascii_lower, is_ascii_digit, dec, join, push_char, push_str, str_eq, str_lt, string_from, dec_string, join_strings, seq_lt, lemma_seq_lt_asym, lemma_seq_lt_trans, lemma_seq_lt_total};

verus! {

/// Node kind. `check`/`var`/`root`/`view`/`perm` are not graph nodes but definitions,
/// kept in collections of their own.
#[derive(Debug, Clone, Copy, PartialEq, Eq, Structural)]
pub enum Kind {
    State,
    Action,
    Call,
    Event,
}

pub open spec fn kind_name(k: Kind) -> Seq<char> {
    match k {
        Kind::State => seq!['s', 't', 'a', 't', 'e'],
        Kind::Action => seq!['a', 'c', 't', 'i', 'o', 'n'],
        Kind::Call => seq!['c', 'a', 'l', 'l'],
        Kind::Event => seq!['e', 'v', 'e', 'n', 't'],
    }
}

pub open spec fn kind_of_name(s: Seq<char>) -> Option<Kind> {
    if s == kind_name(Kind::State) {
        Some(Kind::State)
    } else if s == kind_name(Kind::Action) {
        Some(Kind::Action)
    } else if s == kind_name(Kind::Call) {
        Some(Kind::Call)
    } else if s == kind_name(Kind::Event) {
        Some(Kind::Event)
    } else {
        None
    }
}

impl Kind {
    pub fn parse(s: &str) -> (res: Option<Kind>)
        ensures
            res == kind_of_name(s@),
    {
        proof {
            reveal_strlit("state");
            reveal_strlit("action");
            reveal_strlit("call");
            reveal_strlit("event");
            assert("state"@ =~= kind_name(Kind::State));
            assert("action"@ =~= kind_name(Kind::Action));
            assert("call"@ =~= kind_name(Kind::Call));
            assert("event"@ =~= kind_name(Kind::Event));
        }
        if str_eq(s, "state") {
            Some(Kind::State)
        } else if str_eq(s, "action") {
            Some(Kind::Action)
        } else if str_eq(s, "call") {
            Some(Kind::Call)
        } else if str_eq(s, "event") {
            Some(Kind::Event)
        } else {
            None
        }
    }

    pub fn as_str(self) -> (res: &'static str)
        ensures
            res@ == kind_name(self),
    {
        proof {
            reveal_strlit("state");
            reveal_strlit("action");
            reveal_strlit("call");
            reveal_strlit("event");
            assert("state"@ =~= kind_name(Kind::State));
            assert("action"@ =~= kind_name(Kind::Action));
            assert("call"@ =~= kind_name(Kind::Call));
            assert("event"@ =~= kind_name(Kind::Event));
        }
        match self {
            Kind::State => "state",
            Kind::Action => "action",
            Kind::Call => "call",
            Kind::Event => "event",
        }
    }
}

/// Where an edge comes from; UI labels and lint use it.
#[derive(Debug)]
pub enum EdgeKind {
    /// `-> "x"`
    Plain,
    /// `on "event" -> "x"`
    On { event: String },
    /// `returns 202 -> "x"` (code optional); internal calls write `returns ok -> "x"`
    Returns { status: Option<u16>, code: Option<String> },
    /// `calls "call.id"`
    Calls,
    /// `check "name" ... -> "x"`: where a failing check leads
    CheckFail { check: String, status: Option<u16>, code: Option<String> },
}

pub fn clone_opt_string(o: &Option<String>) -> (res: Option<String>)
    ensures
        res == *o,
{
    match o {
        Some(s) => Some(s.clone()),
        None => None,
    }
}

pub fn clone_strings(v: &Vec<String>) -> (res: Vec<String>)
    ensures
        res@ == v@,
{
    let r = v.clone();
    proof {
        assert(r@ =~= v@);
    }
    r
}

impl Clone for EdgeKind {
    fn clone(&self) -> (res: Self)
        ensures
            res == *self,
    {
        match self {
            EdgeKind::Plain => EdgeKind::Plain,
            EdgeKind::On { event } => EdgeKind::On { event: event.clone() },
            EdgeKind::Returns { status, code } => EdgeKind::Returns {
                status: *status,
                code: clone_opt_string(code),
            },
            EdgeKind::Calls => EdgeKind::Calls,
            EdgeKind::CheckFail { check, status, code } => EdgeKind::CheckFail {
                check: check.clone(),
                status: *status,
                code: clone_opt_string(code),
            },
        }
    }
}

/// Equality of optional strings by content.
pub open spec fn opt_eq(a: Option<String>, b: Option<String>) -> bool {
    match (a, b) {
        (Some(x), Some(y)) => x@ == y@,
        (None, None) => true,
        _ => false,
    }
}

pub fn opt_str_eq(a: &Option<String>, b: &Option<String>) -> (res: bool)
    ensures
        res == opt_eq(*a, *b),
{
    match (a, b) {
        (Some(x), Some(y)) => str_eq(x.as_str(), y.as_str()),
        (None, None) => true,
        _ => false,
    }
}

/// Equality of edge kinds by content (what `==` compares in the model).
pub open spec fn edge_kind_eq(a: EdgeKind, b: EdgeKind) -> bool {
    match (a, b) {
        (EdgeKind::Plain, EdgeKind::Plain) => true,
        (EdgeKind::On { event: x }, EdgeKind::On { event: y }) => x@ == y@,
        (EdgeKind::Returns { status: s1, code: c1 }, EdgeKind::Returns { status: s2, code: c2 }) =>
            s1 == s2 && opt_eq(c1, c2),
        (EdgeKind::Calls, EdgeKind::Calls) => true,
        (
            EdgeKind::CheckFail { check: k1, status: s1, code: c1 },
            EdgeKind::CheckFail { check: k2, status: s2, code: c2 },
        ) => k1@ == k2@ && s1 == s2 && opt_eq(c1, c2),
        _ => false,
    }
}

pub fn edge_kind_equal(a: &EdgeKind, b: &EdgeKind) -> (res: bool)
    ensures
        res == edge_kind_eq(*a, *b),
{
    match (a, b) {
        (EdgeKind::Plain, EdgeKind::Plain) => true,
        (EdgeKind::On { event: x }, EdgeKind::On { event: y }) => str_eq(x.as_str(), y.as_str()),
        (EdgeKind::Returns { status: s1, code: c1 }, EdgeKind::Returns { status: s2, code: c2 }) =>
            *s1 == *s2 && opt_str_eq(c1, c2),
        (EdgeKind::Calls, EdgeKind::Calls) => true,
        (
            EdgeKind::CheckFail { check: k1, status: s1, code: c1 },
            EdgeKind::CheckFail { check: k2, status: s2, code: c2 },
        ) => str_eq(k1.as_str(), k2.as_str()) && *s1 == *s2 && opt_str_eq(c1, c2),
        _ => false,
    }
}

#[derive(Debug)]
pub struct Edge {
    pub to: String,
    pub kind: EdgeKind,
    /// Guard expression; not evaluated, its variable names are linted.
    pub when: Option<String>,
    /// Branch label (`case="pool_exhausted"`): names a real fan-out without a guard.
    pub case: Option<String>,
    /// Step number (`seq=1`): steps that all run in order, not a branch.
    pub seq: Option<u32>,
    pub line: usize,
}

impl Clone for Edge {
    fn clone(&self) -> (res: Self)
        ensures
            res == *self,
    {
        Edge {
            to: self.to.clone(),
            kind: self.kind.clone(),
            when: clone_opt_string(&self.when),
            case: clone_opt_string(&self.case),
            seq: self.seq,
            line: self.line,
        }
    }
}

pub open spec fn s_on() -> Seq<char> { seq!['o', 'n', ' '] }
pub open spec fn s_ok() -> Seq<char> { seq!['o', 'k'] }
pub open spec fn s_calls() -> Seq<char> { seq!['c', 'a', 'l', 'l', 's'] }
pub open spec fn s_fail_mark() -> Seq<char> { seq![' ', '✗'] }
pub open spec fn s_case() -> Seq<char> { seq!['c', 'a', 's', 'e', ' '] }
pub open spec fn s_when() -> Seq<char> { seq!['w', 'h', 'e', 'n', ' '] }
pub open spec fn s_dot_sep() -> Seq<char> { seq![' ', '·', ' '] }
pub open spec fn s_fail() -> Seq<char> { seq!['f', 'a', 'i', 'l'] }
pub open spec fn s_guard() -> Seq<char> { seq!['g', 'u', 'a', 'r', 'd'] }

/// `status code`, `status`, `code` or, with neither, `ok`.
pub open spec fn status_code_text(status: Option<u16>, code: Option<String>) -> Seq<char> {
    match (status, code) {
        (Some(s), Some(c)) => dec(s as nat) + seq![' '] + c@,
        (Some(s), None) => dec(s as nat),
        (None, Some(c)) => c@,
        (None, None) => s_ok(),
    }
}

/// The first part of an edge label, from the edge's kind.
pub open spec fn edge_base(k: EdgeKind) -> Seq<char> {
    match k {
        EdgeKind::Plain => Seq::<char>::empty(),
        EdgeKind::On { event } => s_on() + event@,
        EdgeKind::Returns { status, code } => status_code_text(status, code),
        EdgeKind::Calls => s_calls(),
        EdgeKind::CheckFail { check, status, code } => match status {
            Some(s) => check@ + s_fail_mark() + seq![' '] + dec(s as nat),
            None => check@ + s_fail_mark(),
        },
    }
}

/// The label's parts: the base (if not empty), `#seq`, `case c`, `when w`.
pub open spec fn edge_label_parts(e: Edge) -> Seq<Seq<char>> {
    let base = edge_base(e.kind);
    let p0: Seq<Seq<char>> = if base.len() > 0 { seq![base] } else { seq![] };
    let p1 = match e.seq { Some(n) => p0.push(seq!['#'] + dec(n as nat)), None => p0 };
    let p2 = match e.case { Some(c) => p1.push(s_case() + c@), None => p1 };
    match e.when { Some(w) => p2.push(s_when() + w@), None => p2 }
}

/// One-line label for the UI and briefs: the parts joined with ` · `.
pub open spec fn edge_label(e: Edge) -> Seq<char> {
    join(edge_label_parts(e), s_dot_sep())
}

/// UI class: `fail` (failure branch), `guard`, or empty.
pub open spec fn edge_class(e: Edge) -> Seq<char> {
    match e.kind {
        EdgeKind::CheckFail { .. } => s_fail(),
        EdgeKind::Returns { status: Some(s), .. } if s >= 400 => s_fail(),
        _ => if e.when is Some { s_guard() } else { Seq::<char>::empty() },
    }
}

/// `status code` rendering shared by edge and outcome labels.
pub fn status_code_string(status: Option<u16>, code: &Option<String>) -> (res: String)
    ensures
        res@ == status_code_text(status, *code),
{
    match (status, code) {
        (Some(s), Some(c)) => {
            let mut r = dec_string(s as u64);
            push_char(&mut r, ' ');
            push_str(&mut r, c.as_str());
            r
        },
        (Some(s), None) => dec_string(s as u64),
        (None, Some(c)) => c.clone(),
        (None, None) => {
            proof { reveal_strlit("ok"); assert("ok"@ =~= s_ok()); }
            string_from("ok")
        },
    }
}

fn edge_base_string(k: &EdgeKind) -> (res: String)
    ensures
        res@ == edge_base(*k),
{
    match k {
        EdgeKind::Plain => String::new(),
        EdgeKind::On { event } => {
            proof { reveal_strlit("on "); assert("on "@ =~= s_on()); }
            let mut r = string_from("on ");
            push_str(&mut r, event.as_str());
            r
        },
        EdgeKind::Returns { status, code } => status_code_string(*status, code),
        EdgeKind::Calls => {
            proof { reveal_strlit("calls"); assert("calls"@ =~= s_calls()); }
            string_from("calls")
        },
        EdgeKind::CheckFail { check, status, code: _ } => {
            proof { reveal_strlit(" ✗"); assert(" ✗"@ =~= s_fail_mark()); }
            let mut r = check.clone();
            push_str(&mut r, " ✗");
            match status {
                Some(s) => {
                    push_char(&mut r, ' ');
                    let d = dec_string(*s as u64);
                    push_str(&mut r, d.as_str());
                },
                None => {},
            }
            proof {
                match status {
                    Some(s) => assert(r@ =~= check@ + s_fail_mark() + seq![' '] + dec(*s as nat)),
                    None => assert(r@ =~= check@ + s_fail_mark()),
                }
            }
            r
        },
    }
}

/// `prefix` followed by `tail`.
pub fn prefixed(prefix: &str, tail: &str) -> (res: String)
    ensures
        res@ == prefix@ + tail@,
{
    let mut r = string_from(prefix);
    push_str(&mut r, tail);
    r
}

/// Whether a string has no characters.
pub fn is_empty_str(s: &String) -> (res: bool)
    ensures
        res == (s@.len() == 0),
{
    s.as_str().is_empty()
}

impl Edge {
    /// One-line label for the UI and briefs.
    pub fn label(&self) -> (res: String)
        ensures
            res@ == edge_label(*self),
    {
        let base = edge_base_string(&self.kind);
        let ghost bv = base@;
        let mut parts: Vec<String> = Vec::new();
        if !is_empty_str(&base) {
            parts.push(base);
        }
        let ghost p0: Seq<Seq<char>> = if bv.len() > 0 { seq![bv] } else { seq![] };
        proof {
            assert(parts@.map_values(|p: String| p@) =~= p0);
        }
        match self.seq {
            Some(n) => {
                let mut t = String::new();
                push_char(&mut t, '#');
                let d = dec_string(n as u64);
                push_str(&mut t, d.as_str());
                parts.push(t);
            },
            None => {},
        }
        let ghost p1 = match self.seq { Some(n) => p0.push(seq!['#'] + dec(n as nat)), None => p0 };
        proof {
            assert(parts@.map_values(|p: String| p@) =~= p1);
        }
        proof {
            reveal_strlit("case ");
            reveal_strlit("when ");
            reveal_strlit(" · ");
            assert("case "@ =~= s_case());
            assert("when "@ =~= s_when());
            assert(" · "@ =~= s_dot_sep());
        }
        match &self.case {
            Some(c) => parts.push(prefixed("case ", c.as_str())),
            None => {},
        }
        let ghost p2 = match &self.case { Some(c) => p1.push(s_case() + c@), None => p1 };
        proof {
            assert(parts@.map_values(|p: String| p@) =~= p2);
        }
        match &self.when {
            Some(w) => parts.push(prefixed("when ", w.as_str())),
            None => {},
        }
        proof {
            assert(parts@.map_values(|p: String| p@) =~= edge_label_parts(*self));
        }
        join_strings(&parts, " · ")
    }

    /// UI class: `fail` (failure branch), `guard`, or empty.
    pub fn class(&self) -> (res: &'static str)
        ensures
            res@ == edge_class(*self),
    {
        proof {
            reveal_strlit("fail");
            reveal_strlit("guard");
            reveal_strlit("");
            assert("fail"@ =~= s_fail());
            assert("guard"@ =~= s_guard());
            assert(""@ =~= Seq::<char>::empty());
        }
        match &self.kind {
            EdgeKind::CheckFail { .. } => "fail",
            EdgeKind::Returns { status: Some(s), .. } if *s >= 400 => "fail",
            _ => if self.when.is_some() { "guard" } else { "" },
        }
    }
}

/// A check used inside a node (`check "name" fail=409 code="x" -> "to"`).
#[derive(Debug)]
pub struct CheckUse {
    pub name: String,
    pub fail: Option<u16>,
    pub code: Option<String>,
    /// Target when `-> "x"` is given; otherwise the definition's `fail_to`.
    pub to: Option<String>,
    /// Target-less end (`outcome="toast: ..."`): on failure the flow ends in free text.
    pub outcome: Option<String>,
    pub line: usize,
}

impl Clone for CheckUse {
    fn clone(&self) -> (res: Self)
        ensures
            res == *self,
    {
        CheckUse {
            name: self.name.clone(),
            fail: self.fail,
            code: clone_opt_string(&self.code),
            to: clone_opt_string(&self.to),
            outcome: clone_opt_string(&self.outcome),
            line: self.line,
        }
    }
}

/// A terminal exit without a target node: `returns 409 code="x" outcome="..."` or
/// `-> outcome="..." when="..."` (`arrow`: written with `->`, no status or code).
#[derive(Debug)]
pub struct Outcome {
    pub status: Option<u16>,
    pub code: Option<String>,
    pub text: String,
    pub when: Option<String>,
    pub case: Option<String>,
    pub arrow: bool,
    pub line: usize,
}

impl Clone for Outcome {
    fn clone(&self) -> (res: Self)
        ensures
            res == *self,
    {
        Outcome {
            status: self.status,
            code: clone_opt_string(&self.code),
            text: self.text.clone(),
            when: clone_opt_string(&self.when),
            case: clone_opt_string(&self.case),
            arrow: self.arrow,
            line: self.line,
        }
    }
}

/// The first part of an outcome label: status and code, nothing for an arrow, else `ok`.
pub open spec fn outcome_base(o: Outcome) -> Seq<char> {
    if o.status is None && o.code is None && o.arrow {
        Seq::<char>::empty()
    } else {
        status_code_text(o.status, o.code)
    }
}

pub open spec fn outcome_label_parts(o: Outcome) -> Seq<Seq<char>> {
    let base = outcome_base(o);
    let p0: Seq<Seq<char>> = if base.len() > 0 { seq![base] } else { seq![] };
    let p1 = match o.case { Some(c) => p0.push(s_case() + c@), None => p0 };
    match o.when { Some(w) => p1.push(s_when() + w@), None => p1 }
}

pub open spec fn outcome_label(o: Outcome) -> Seq<char> {
    join(outcome_label_parts(o), s_dot_sep())
}

impl Outcome {
    pub fn label(&self) -> (res: String)
        ensures
            res@ == outcome_label(*self),
    {
        let base = if self.status.is_none() && self.code.is_none() && self.arrow {
            String::new()
        } else {
            status_code_string(self.status, &self.code)
        };
        let ghost bv = base@;
        proof {
            assert(bv =~= outcome_base(*self));
        }
        let mut parts: Vec<String> = Vec::new();
        if !is_empty_str(&base) {
            parts.push(base);
        }
        let ghost p0: Seq<Seq<char>> = if bv.len() > 0 { seq![bv] } else { seq![] };
        proof {
            assert(parts@.map_values(|p: String| p@) =~= p0);
            reveal_strlit("case ");
            reveal_strlit("when ");
            reveal_strlit(" · ");
            assert("case "@ =~= s_case());
            assert("when "@ =~= s_when());
            assert(" · "@ =~= s_dot_sep());
        }
        match &self.case {
            Some(c) => parts.push(prefixed("case ", c.as_str())),
            None => {},
        }
        let ghost p1 = match &self.case { Some(c) => p0.push(s_case() + c@), None => p0 };
        proof {
            assert(parts@.map_values(|p: String| p@) =~= p1);
        }
        match &self.when {
            Some(w) => parts.push(prefixed("when ", w.as_str())),
            None => {},
        }
        proof {
            assert(parts@.map_values(|p: String| p@) =~= outcome_label_parts(*self));
        }
        join_strings(&parts, " · ")
    }
}

/// A variable write (`sets "var" "+1"`).
#[derive(Debug)]
pub struct SetVar {
    pub var: String,
    /// Uninterpreted value expression: `"+1"`, `"0"`, `"true"`.
    pub value: String,
    pub line: usize,
}

impl Clone for SetVar {
    fn clone(&self) -> (res: Self)
        ensures
            res == *self,
    {
        SetVar { var: self.var.clone(), value: self.value.clone(), line: self.line }
    }
}

/// A free attribute of a node (`method`, `path`, `kind`, `src`, `entry`, ...).
#[derive(Debug)]
pub struct Attr {
    pub key: String,
    pub value: String,
}

impl Clone for Attr {
    fn clone(&self) -> (res: Self)
        ensures
            res == *self,
    {
        Attr { key: self.key.clone(), value: self.value.clone() }
    }
}

/// Attributes are kept sorted by key, each key once.
pub open spec fn attrs_wf(a: Seq<Attr>) -> bool {
    forall|i: int, j: int| 0 <= i < j < a.len() ==> seq_lt(a[i].key@, a[j].key@)
}

/// The value stored for `key`, if any.
pub open spec fn attr_lookup(a: Seq<Attr>, key: Seq<char>) -> Option<Seq<char>>
    decreases a.len(),
{
    if a.len() == 0 {
        None
    } else if a.last().key@ == key {
        Some(a.last().value@)
    } else {
        attr_lookup(a.drop_last(), key)
    }
}

proof fn lemma_attr_lookup_found(a: Seq<Attr>, key: Seq<char>, i: int)
    requires
        0 <= i < a.len(),
        a[i].key@ == key,
        forall|j: int| i < j < a.len() ==> a[j].key@ != key,
    ensures
        attr_lookup(a, key) == Some(a[i].value@),
    decreases a.len(),
{
    if i < a.len() - 1 {
        lemma_attr_lookup_found(a.drop_last(), key, i);
    }
}

proof fn lemma_attr_lookup_missing(a: Seq<Attr>, key: Seq<char>)
    requires
        forall|j: int| 0 <= j < a.len() ==> a[j].key@ != key,
    ensures
        attr_lookup(a, key) is None,
    decreases a.len(),
{
    if a.len() > 0 {
        lemma_attr_lookup_missing(a.drop_last(), key);
    }
}

/// Looks up the attribute `key`.
pub fn attr_get<'a>(attrs: &'a Vec<Attr>, key: &str) -> (res: Option<&'a String>)
    ensures
        match res {
            Some(v) => attr_lookup(attrs@, key@) == Some(v@),
            None => attr_lookup(attrs@, key@) is None,
        },
{
    let mut i = attrs.len();
    while i > 0
        invariant
            i <= attrs@.len(),
            forall|j: int| i <= j < attrs@.len() ==> attrs@[j].key@ != key@,
        decreases i,
    {
        i -= 1;
        if str_eq(attrs[i].key.as_str(), key) {
            proof {
                lemma_attr_lookup_found(attrs@, key@, i as int);
            }
            return Some(&attrs[i].value);
        }
    }
    proof {
        lemma_attr_lookup_missing(attrs@, key@);
    }
    None
}

/// Inserts or replaces `key` (as `BTreeMap::insert`), keeping keys sorted.
pub fn attr_insert(attrs: &mut Vec<Attr>, key: String, value: String)
    requires
        attrs_wf(old(attrs)@),
    ensures
        attrs_wf(final(attrs)@),
        attr_lookup(final(attrs)@, key@) == Some(value@),
        forall|k: Seq<char>| k != key@ ==> attr_lookup(final(attrs)@, k) == attr_lookup(old(attrs)@, k),
{
    let mut i: usize = 0;
    while i < attrs.len() && str_lt(attrs[i].key.as_str(), key.as_str())
        invariant
            attrs@ == old(attrs)@,
            attrs_wf(attrs@),
            i <= attrs@.len(),
            forall|j: int| 0 <= j < i ==> seq_lt(attrs@[j].key@, key@),
        decreases attrs.len() - i,
    {
        i += 1;
    }
    let ghost a0 = attrs@;
    proof {
        assert forall|j: int| 0 <= j < i implies a0[j].key@ != key@ by {
            lemma_seq_lt_asym(a0[j].key@, key@);
        }
    }
    if i < attrs.len() && str_eq(attrs[i].key.as_str(), key.as_str()) {
        attrs.set(i, Attr { key, value });
        proof {
            let a1 = attrs@;
            assert forall|p: int, q: int| 0 <= p < q < a1.len() implies seq_lt(a1[p].key@, a1[q].key@) by {
                assert(a1[p].key@ == a0[p].key@ && a1[q].key@ == a0[q].key@);
            }
            assert forall|j: int| i < j < a1.len() implies a1[j].key@ != key@ by {
                lemma_seq_lt_asym(a0[i as int].key@, a0[j].key@);
            }
            lemma_attr_lookup_found(a1, key@, i as int);
            assert forall|k: Seq<char>| k != key@ implies attr_lookup(a1, k) == attr_lookup(a0, k) by {
                lemma_attr_lookup_same(a0, a1, k);
            }
        }
    } else {
        let ghost kv = key@;
        proof {
            if i < a0.len() {
                lemma_seq_lt_total(a0[i as int].key@, kv);
            }
        }
        attrs.insert(i, Attr { key, value });
        proof {
            let a1 = attrs@;
            assert forall|p: int, q: int| 0 <= p < q < a1.len() implies seq_lt(a1[p].key@, a1[q].key@) by {
                if q > i + 1 {
                    lemma_seq_lt_trans(kv, a0[i as int].key@, a0[q - 1].key@);
                }
                if p < i && q > i {
                    lemma_seq_lt_trans(a1[p].key@, kv, a1[q].key@);
                }
            }
            assert forall|j: int| i < j < a1.len() implies a1[j].key@ != kv by {
                if j > i + 1 {
                    lemma_seq_lt_trans(kv, a0[i as int].key@, a0[j - 1].key@);
                }
                lemma_seq_lt_asym(kv, a1[j].key@);
            }
            lemma_attr_lookup_found(a1, kv, i as int);
            assert forall|k: Seq<char>| k != kv implies attr_lookup(a1, k) == attr_lookup(a0, k) by {
                lemma_attr_lookup_insert(a0, i as int, a1[i as int], k);
            }
        }
    }
}

proof fn lemma_attr_lookup_same(a0: Seq<Attr>, a1: Seq<Attr>, k: Seq<char>)
    requires
        a0.len() == a1.len(),
        forall|j: int| 0 <= j < a0.len() ==> a0[j].key@ == a1[j].key@,
        forall|j: int| 0 <= j < a0.len() && a0[j].key@ == k ==> a0[j].value@ == a1[j].value@,
    ensures
        attr_lookup(a1, k) == attr_lookup(a0, k),
    decreases a0.len(),
{
    if a0.len() > 0 {
        lemma_attr_lookup_same(a0.drop_last(), a1.drop_last(), k);
    }
}

proof fn lemma_attr_lookup_insert(a0: Seq<Attr>, i: int, x: Attr, k: Seq<char>)
    requires
        0 <= i <= a0.len(),
        x.key@ != k,
    ensures
        attr_lookup(a0.insert(i, x), k) == attr_lookup(a0, k),
    decreases a0.len(),
{
    let a1 = a0.insert(i, x);
    if i == a0.len() {
        assert(a1.drop_last() =~= a0);
    } else {
        assert(a1.drop_last() =~= a0.drop_last().insert(i, x));
        lemma_attr_lookup_insert(a0.drop_last(), i, x, k);
    }
}

pub fn clone_vec<T: Clone>(v: &Vec<T>) -> (res: Vec<T>)
    requires
        forall|a: T, b: T| vstd::pervasive::cloned(a, b) ==> a == b,
    ensures
        res@ == v@,
{
    let r = v.clone();
    proof {
        assert(r@ =~= v@);
    }
    r
}

#[derive(Debug)]
pub struct Node {
    pub id: String,
    pub kind: Kind,
    pub layer: String,
    pub desc: Option<String>,
    pub doc: Option<String>,
    /// Free attributes: `method`, `path`, `kind` (action sub-kind) and so on, sorted by key.
    pub attrs: Vec<Attr>,
    pub edges: Vec<Edge>,
    pub checks: Vec<CheckUse>,
    pub sets: Vec<SetVar>,
    pub outcomes: Vec<Outcome>,
    pub file: String,
    pub line: usize,
}

/// Two nodes hold the same values.
pub open spec fn node_same(a: Node, b: Node) -> bool {
    &&& a.id == b.id
    &&& a.kind == b.kind
    &&& a.layer == b.layer
    &&& a.desc == b.desc
    &&& a.doc == b.doc
    &&& a.attrs@ == b.attrs@
    &&& a.edges@ == b.edges@
    &&& a.checks@ == b.checks@
    &&& a.sets@ == b.sets@
    &&& a.outcomes@ == b.outcomes@
    &&& a.file == b.file
    &&& a.line == b.line
}

impl Node {
    /// A copy holding the same values.
    pub fn duplicate(&self) -> (res: Node)
        ensures
            node_same(res, *self),
    {
        Node {
            id: self.id.clone(),
            kind: self.kind,
            layer: self.layer.clone(),
            desc: clone_opt_string(&self.desc),
            doc: clone_opt_string(&self.doc),
            attrs: clone_vec(&self.attrs),
            edges: clone_vec(&self.edges),
            checks: clone_vec(&self.checks),
            sets: clone_vec(&self.sets),
            outcomes: clone_vec(&self.outcomes),
            file: self.file.clone(),
            line: self.line,
        }
    }

    /// The attribute `key`, if set.
    pub fn attr(&self, key: &str) -> (res: Option<&String>)
        ensures
            match res {
                Some(v) => attr_lookup(self.attrs@, key@) == Some(v@),
                None => attr_lookup(self.attrs@, key@) is None,
            },
    {
        attr_get(&self.attrs, key)
    }
}

#[derive(Debug)]
pub struct VarDef {
    pub id: String,
    pub ty: String,
    pub desc: Option<String>,
    /// External source: `session`, `config:duploy.toml#...`. Without it, `sets` must write it.
    pub source: Option<String>,
    pub values: Vec<String>,
    pub file: String,
    pub line: usize,
}

#[derive(Debug)]
pub struct CheckDef {
    pub id: String,
    pub desc: Option<String>,
    /// Variables read (parsed from a space separated list).
    pub reads: Vec<String>,
    /// Default failure target.
    pub fail_to: Option<String>,
    /// Default target-less end (`outcome="toast: ..."`), used when the use names neither.
    pub outcome: Option<String>,
    pub file: String,
    pub line: usize,
}

/// Two check definitions hold the same values.
pub open spec fn check_def_same(a: CheckDef, b: CheckDef) -> bool {
    &&& a.id == b.id
    &&& a.desc == b.desc
    &&& a.reads@ == b.reads@
    &&& a.fail_to == b.fail_to
    &&& a.outcome == b.outcome
    &&& a.file == b.file
    &&& a.line == b.line
}

impl CheckDef {
    /// A copy holding the same values.
    pub fn duplicate(&self) -> (res: CheckDef)
        ensures
            check_def_same(res, *self),
    {
        CheckDef {
            id: self.id.clone(),
            desc: clone_opt_string(&self.desc),
            reads: clone_strings(&self.reads),
            fail_to: clone_opt_string(&self.fail_to),
            outcome: clone_opt_string(&self.outcome),
            file: self.file.clone(),
            line: self.line,
        }
    }
}

/// Permission definition. A `requires "x"` use resolves to a synthetic check `perm:x`;
/// `deny` is the failure code, `fail_to` the default target.
#[derive(Debug)]
pub struct PermDef {
    pub id: String,
    pub desc: Option<String>,
    /// Free scope label such as `project | org | system`.
    pub scope: Option<String>,
    pub deny: Option<u16>,
    pub fail_to: Option<String>,
    pub outcome: Option<String>,
    pub file: String,
    pub line: usize,
}

#[derive(Debug)]
pub struct RootDef {
    pub id: String,
    pub desc: Option<String>,
    /// Periodic entry (reconciler, liveness round): `every="30s"`.
    pub every: Option<String>,
    pub file: String,
    pub line: usize,
}

impl Clone for RootDef {
    fn clone(&self) -> (res: Self)
        ensures
            res == *self,
    {
        RootDef {
            id: self.id.clone(),
            desc: clone_opt_string(&self.desc),
            every: clone_opt_string(&self.every),
            file: self.file.clone(),
            line: self.line,
        }
    }
}

#[derive(Debug)]
pub struct ViewDef {
    pub id: String,
    pub from: String,
    pub to: String,
    pub desc: Option<String>,
    pub file: String,
    pub line: usize,
}

impl Clone for ViewDef {
    fn clone(&self) -> (res: Self)
        ensures
            res == *self,
    {
        ViewDef {
            id: self.id.clone(),
            from: self.from.clone(),
            to: self.to.clone(),
            desc: clone_opt_string(&self.desc),
            file: self.file.clone(),
            line: self.line,
        }
    }
}

/// Project settings (`flows/flow.kdl`).
#[derive(Debug)]
pub struct ProjectConfig {
    pub name: String,
    pub layers: Vec<String>,
    /// Source globs (relative to the repository root) that may affect the graph.
    pub watch: Vec<String>,
    /// More non-periodic roots than this: `too_many_roots`.
    pub max_roots: usize,
}

pub fn default_max_roots() -> (res: usize)
    ensures
        res == 10,
{
    10
}

pub open spec fn default_layers() -> Seq<Seq<char>> {
    seq![seq!['u', 'i'], seq!['a', 'p', 'i'], seq!['d', 'o', 'm', 'a', 'i', 'n']]
}

impl Default for ProjectConfig {
    fn default() -> (res: Self)
        ensures
            res.name@ == seq!['f', 'l', 'o', 'w', 's'],
            res.layers@.map_values(|l: String| l@) == default_layers(),
            res.watch@.len() == 0,
            res.max_roots == 10,
    {
        proof {
            reveal_strlit("flows");
            reveal_strlit("ui");
            reveal_strlit("api");
            reveal_strlit("domain");
            assert("ui"@ =~= seq!['u', 'i']);
            assert("api"@ =~= seq!['a', 'p', 'i']);
            assert("domain"@ =~= seq!['d', 'o', 'm', 'a', 'i', 'n']);
        }
        let mut layers: Vec<String> = Vec::new();
        layers.push(string_from("ui"));
        layers.push(string_from("api"));
        layers.push(string_from("domain"));
        proof {
            assert(layers@.map_values(|l: String| l@) =~= default_layers());
        }
        let r = ProjectConfig {
            name: string_from("flows"),
            layers,
            watch: Vec::new(),
            max_roots: default_max_roots(),
        };
        proof {
            assert(r.name@ =~= seq!['f', 'l', 'o', 'w', 's']);
        }
        r
    }
}

/// Everything read from one file.
#[derive(Debug)]
pub struct FileItems {
    pub nodes: Vec<Node>,
    pub vars: Vec<VarDef>,
    pub checks: Vec<CheckDef>,
    pub perms: Vec<PermDef>,
    pub roots: Vec<RootDef>,
    pub views: Vec<ViewDef>,
    pub config: Option<ProjectConfig>,
}

pub open spec fn s_perm_prefix() -> Seq<char> {
    seq!['p', 'e', 'r', 'm', ':']
}

/// The check name a `requires "x"` use resolves to: `perm:x`.
pub fn perm_check_id(perm: &str) -> (res: String)
    ensures
        res@ == s_perm_prefix() + perm@,
{
    proof {
        reveal_strlit("perm:");
        assert("perm:"@ =~= s_perm_prefix());
    }
    prefixed("perm:", perm)
}

pub open spec fn is_id_char(c: char) -> bool {
    is_ascii_lower(c) || is_ascii_digit(c) || c == '_'
}

pub open spec fn is_sep(c: char, colon: bool) -> bool {
    c == '.' || (colon && c == ':')
}

/// Non-empty segments of `[a-z0-9_]`, separated by single dots (and, with `colon`,
/// single colons): no separator at either end and none next to another.
pub open spec fn dotted_ident(s: Seq<char>, colon: bool) -> bool {
    &&& s.len() > 0
    &&& forall|i: int| 0 <= i < s.len() ==> is_id_char(#[trigger] s[i]) || is_sep(s[i], colon)
    &&& !is_sep(s[0], colon)
    &&& !is_sep(s.last(), colon)
    &&& forall|i: int| 0 <= i < s.len() - 1 ==> !(is_sep(#[trigger] s[i], colon) && is_sep(s[i + 1], colon))
}

fn dotted_ident_check(s: &str, colon: bool) -> (res: bool)
    ensures
        res == dotted_ident(s@, colon),
{
    let cs = chars_of(s);
    if cs.len() == 0 {
        return false;
    }
    let mut i: usize = 0;
    while i < cs.len()
        invariant
            cs@ == s@,
            cs@.len() > 0,
            i <= cs@.len(),
            forall|j: int| 0 <= j < i ==> is_id_char(#[trigger] cs@[j]) || is_sep(cs@[j], colon),
            forall|j: int| 0 <= j < i ==> (is_sep(#[trigger] cs@[j], colon) ==> 0 < j < cs@.len() - 1),
            forall|j: int| 0 <= j < i - 1 ==> !(is_sep(#[trigger] cs@[j], colon) && is_sep(cs@[j + 1], colon)),
        decreases cs.len() - i,
    {
        let c = cs[i];
        let sep = c == '.' || (colon && c == ':');
        let idc = ('a' <= c && c <= 'z') || ('0' <= c && c <= '9') || c == '_';
        if !(idc || sep) {
            return false;
        }
        if sep && (i == 0 || i + 1 == cs.len()) {
            return false;
        }
        if sep {
            let p = cs[i - 1];
            if p == '.' || (colon && p == ':') {
                assert(is_sep(cs@[i - 1], colon) && is_sep(cs@[(i - 1) + 1], colon));
                return false;
            }
        }
        i += 1;
    }
    true
}

/// ID syntax: `[a-z0-9_]+(\.[a-z0-9_]+)*`.
pub fn is_valid_id(s: &str) -> (res: bool)
    ensures
        res == dotted_ident(s@, false),
{
    dotted_ident_check(s, false)
}

/// Check names may also carry `:` (`perm:deploy.trigger`).
pub fn is_valid_check_id(s: &str) -> (res: bool)
    ensures
        res == dotted_ident(s@, true),
{
    dotted_ident_check(s, true)
}

pub open spec fn s_kdl() -> Seq<char> {
    seq!['.', 'k', 'd', 'l']
}

/// `a.kdl`
pub open spec fn flat_file(seg: Seq<char>) -> Seq<char> {
    seg + s_kdl()
}

/// `a/b.kdl`
pub open spec fn grouped_file(a: Seq<char>, b: Seq<char>) -> Seq<char> {
    a + seq!['/'] + b + s_kdl()
}

/// Files an ID may live in: `a` → `a.kdl`; `a.b` → `a.kdl` or `a/b.kdl`;
/// `a.b.c…` → `a/b.kdl` or `a.kdl`. The first one is preferred.
pub open spec fn allowed_files_spec(id: Seq<char>) -> Seq<Seq<char>> {
    let segs = split_on(id, '.');
    if segs.len() <= 1 {
        seq![id + s_kdl()]
    } else if segs.len() == 2 {
        seq![flat_file(segs[0]), grouped_file(segs[0], segs[1])]
    } else {
        seq![grouped_file(segs[0], segs[1]), flat_file(segs[0])]
    }
}

fn flat_file_string(seg: &str) -> (res: String)
    ensures
        res@ == flat_file(seg@),
{
    proof {
        reveal_strlit(".kdl");
        assert(".kdl"@ =~= s_kdl());
    }
    let mut r = string_from(seg);
    push_str(&mut r, ".kdl");
    r
}

fn grouped_file_string(a: &str, b: &str) -> (res: String)
    ensures
        res@ == grouped_file(a@, b@),
{
    proof {
        reveal_strlit(".kdl");
        assert(".kdl"@ =~= s_kdl());
    }
    let mut r = string_from(a);
    push_char(&mut r, '/');
    push_str(&mut r, b);
    push_str(&mut r, ".kdl");
    proof {
        assert(r@ =~= grouped_file(a@, b@));
    }
    r
}

pub fn allowed_files(id: &str) -> (res: Vec<String>)
    ensures
        res@.map_values(|f: String| f@) == allowed_files_spec(id@),
{
    let segs = split_chars(id, '.');
    let ghost sv = segs@.map_values(|p: String| p@);
    let mut out: Vec<String> = Vec::new();
    if segs.len() <= 1 {
        out.push(flat_file_string(id));
    } else if segs.len() == 2 {
        assert(sv[0] == segs@[0]@ && sv[1] == segs@[1]@);
        out.push(flat_file_string(segs[0].as_str()));
        out.push(grouped_file_string(segs[0].as_str(), segs[1].as_str()));
    } else {
        assert(sv[0] == segs@[0]@ && sv[1] == segs@[1]@);
        out.push(grouped_file_string(segs[0].as_str(), segs[1].as_str()));
        out.push(flat_file_string(segs[0].as_str()));
    }
    proof {
        assert(out@.map_values(|f: String| f@) =~= allowed_files_spec(id@));
    }
    out
}

/// UI grouping key: the first two segments (or the only one).
pub open spec fn group_of_spec(id: Seq<char>) -> Seq<char> {
    let segs = split_on(id, '.');
    join(if segs.len() > 2 { segs.take(2) } else { segs }, seq!['.'])
}

pub fn group_of(id: &str) -> (res: String)
    ensures
        res@ == group_of_spec(id@),
{
    let segs = split_chars(id, '.');
    let mut firsts: Vec<String> = Vec::new();
    let mut i: usize = 0;
    while i < segs.len() && i < 2
        invariant
            i <= segs@.len(),
            i <= 2,
            firsts@.map_values(|p: String| p@) == segs@.map_values(|p: String| p@).take(i as int),
        decreases segs.len() - i,
    {
        let ghost before = firsts@.map_values(|p: String| p@);
        firsts.push(segs[i].clone());
        proof {
            assert(firsts@.map_values(|p: String| p@) =~= before.push(segs@[i as int]@));
            assert(segs@.map_values(|p: String| p@).take(i + 1) =~= segs@.map_values(|p: String| p@).take(i as int).push(segs@[i as int]@));
        }
        i += 1;
    }
    proof {
        reveal_strlit(".");
        assert("."@ =~= seq!['.']);
        let sv = segs@.map_values(|p: String| p@);
        if sv.len() > 2 {
            assert(sv.take(i as int) =~= split_on(id@, '.').take(2));
        } else {
            assert(sv.take(i as int) =~= split_on(id@, '.'));
        }
    }
    join_strings(&firsts, ".")
}

/// Index of the last `c` in `s`, or -1.
pub open spec fn last_index_of(s: Seq<char>, c: char) -> int
    decreases s.len(),
{
    if s.len() == 0 {
        -1
    } else if s.last() == c {
        s.len() - 1
    } else {
        last_index_of(s.drop_last(), c)
    }
}

/// Local counter scope: the prefix up to the last dot (`restore.snapshot` → `restore`,
/// `deploy.rolling.retry` → `deploy.rolling`). A dotless ID is its own scope.
pub open spec fn local_group_spec(id: Seq<char>) -> Seq<char> {
    let k = last_index_of(id, '.');
    if k < 0 { id } else { id.subrange(0, k) }
}

pub fn local_group(id: &str) -> (res: &str)
    ensures
        res@ == local_group_spec(id@),
{
    let cs = chars_of(id);
    let mut i = cs.len();
    proof {
        assert(id@.take(id@.len() as int) =~= id@);
    }
    while i > 0
        invariant
            cs@ == id@,
            i <= cs@.len(),
            last_index_of(id@, '.') == last_index_of(id@.take(i as int), '.'),
        decreases i,
    {
        if cs[i - 1] == '.' {
            proof {
                assert(id@.take(i as int).last() == '.');
            }
            return id.substring_char(0, i - 1);
        }
        proof {
            assert(id@.take(i as int).drop_last() =~= id@.take(i - 1));
        }
        i -= 1;
    }
    proof {
        assert(id@.take(0) =~= Seq::<char>::empty());
    }
    id
}

/// A node that carries a non-empty `entry="…"` attribute is an entry point called directly
/// by an outside client: reachable without a root and not counted by `too_many_roots`.
pub open spec fn is_entry_spec(n: Node) -> bool {
    match attr_lookup(n.attrs@, seq!['e', 'n', 't', 'r', 'y']) {
        Some(v) => v.len() > 0,
        None => false,
    }
}

pub fn is_entry(n: &Node) -> (res: bool)
    ensures
        res == is_entry_spec(*n),
{
    proof {
        reveal_strlit("entry");
        assert("entry"@ =~= seq!['e', 'n', 't', 'r', 'y']);
    }
    match n.attr("entry") {
        Some(v) => !is_empty_str(v),
        None => false,
    }
}

/// `f` answered `r` when asked about a file named `x`.
pub open spec fn answered<F: Fn(&str) -> bool>(f: F, x: Seq<char>, r: bool) -> bool {
    exists|a: &str| a@ == x && call_ensures(f, (a,), r)
}

/// `g` answered `r` when asked about file `x` and ID prefix `p`.
pub open spec fn answered2<G: Fn(&str, &str) -> bool>(g: G, x: Seq<char>, p: Seq<char>, r: bool) -> bool {
    exists|a: &str, b: &str| a@ == x && b@ == p && call_ensures(g, (a, b), r)
}

/// `a.b.` for an ID `a.b.c…`.
pub open spec fn group_prefix(a: Seq<char>, b: Seq<char>) -> Seq<char> {
    a + seq!['.'] + b + seq!['.']
}

/// The file for a new node. `exists(f)`: the file exists; `has_group(f, prefix)`: the file
/// defines an ID starting with `prefix`.
///
/// Three or more segments (`a.b.c`) always go to `a/b.kdl`, unless `a.kdl` already holds
/// the `a.b.*` group and `a/b.kdl` does not exist (older layout), then `a.kdl`. Two
/// segments (`a.b`) go to `a/b.kdl` where it exists, else to `a.kdl`; one segment to `a.kdl`.
pub fn file_for_id<F: Fn(&str) -> bool, G: Fn(&str, &str) -> bool>(
    id: &str,
    file_exists: F,
    has_group: G,
) -> (res: String)
    requires
        forall|f: &str| file_exists.requires((f,)),
        forall|f: &str, p: &str| has_group.requires((f, p)),
    ensures
        ({
            let segs = split_on(id@, '.');
            let allowed = allowed_files_spec(id@);
            if segs.len() >= 3 {
                let grouped = grouped_file(segs[0], segs[1]);
                let flat = flat_file(segs[0]);
                let prefix = group_prefix(segs[0], segs[1]);
                &&& (res@ == flat || res@ == grouped)
                &&& res@ == flat ==> answered(file_exists, grouped, false) && answered(file_exists, flat, true)
                    && answered2(has_group, flat, prefix, true)
                &&& res@ == grouped ==> answered(file_exists, grouped, true) || answered(file_exists, flat, false)
                    || answered2(has_group, flat, prefix, false)
            } else if segs.len() == 2 {
                let grouped = grouped_file(segs[0], segs[1]);
                ||| res@ == grouped && answered(file_exists, grouped, true)
                ||| res@ == flat_file(segs[0]) && answered(file_exists, grouped, false)
            } else {
                res@ == allowed[0]
            }
        }),
{
    let segs = split_chars(id, '.');
    let ghost sv = segs@.map_values(|p: String| p@);
    if segs.len() >= 3 {
        assert(sv[0] == segs@[0]@ && sv[1] == segs@[1]@);
        let grouped = grouped_file_string(segs[0].as_str(), segs[1].as_str());
        let flat = flat_file_string(segs[0].as_str());
        let mut prefix = segs[0].clone();
        push_char(&mut prefix, '.');
        push_str(&mut prefix, segs[1].as_str());
        push_char(&mut prefix, '.');
        proof {
            assert(prefix@ =~= group_prefix(sv[0], sv[1]));
        }
        let ga = grouped.as_str();
        let fa = flat.as_str();
        let pa = prefix.as_str();
        let e1 = file_exists(ga);
        assert(call_ensures(file_exists, (ga,), e1) && ga@ == grouped@);
        if !e1 {
            let e2 = file_exists(fa);
            assert(call_ensures(file_exists, (fa,), e2) && fa@ == flat@);
            if e2 {
                let e3 = has_group(fa, pa);
                assert(call_ensures(has_group, (fa, pa), e3) && pa@ == prefix@);
                if e3 {
                    return flat;
                }
            }
        }
        proof {
            assert(grouped@.len() == sv[0].len() + sv[1].len() + 5);
            assert(flat@.len() == sv[0].len() + 4);
            if !e1 {
                assert(answered(file_exists, grouped@, false));
            } else {
                assert(answered(file_exists, grouped@, true));
            }
        }
        return grouped;
    }
    if segs.len() == 2 {
        assert(sv[0] == segs@[0]@ && sv[1] == segs@[1]@);
        let grouped = grouped_file_string(segs[0].as_str(), segs[1].as_str());
        let ga = grouped.as_str();
        let e = file_exists(ga);
        assert(call_ensures(file_exists, (ga,), e) && ga@ == grouped@);
        if e {
            return grouped;
        }
        return flat_file_string(segs[0].as_str());
    }
    let allowed = allowed_files(id);
    proof {
        assert(allowed@.map_values(|f: String| f@).len() == allowed@.len());
        assert(allowed_files_spec(id@).len() >= 1);
        assert(allowed@.map_values(|f: String| f@)[0] == allowed@[0]@);
    }
    allowed[0].clone()
}

impl Keyed for Node {
    open spec fn key_view(&self) -> Seq<char> {
        self.id@
    }

    fn key(&self) -> (res: &str) {
        self.id.as_str()
    }
}

impl Keyed for VarDef {
    open spec fn key_view(&self) -> Seq<char> {
        self.id@
    }

    fn key(&self) -> (res: &str) {
        self.id.as_str()
    }
}

impl Keyed for CheckDef {
    open spec fn key_view(&self) -> Seq<char> {
        self.id@
    }

    fn key(&self) -> (res: &str) {
        self.id.as_str()
    }
}

impl Keyed for PermDef {
    open spec fn key_view(&self) -> Seq<char> {
        self.id@
    }

    fn key(&self) -> (res: &str) {
        self.id.as_str()
    }
}

/// The text of an optional string.
pub open spec fn ostr(o: Option<String>) -> Option<Seq<char>> {
    match o {
        Some(s) => Some(s@),
        None => None,
    }
}

/// An edge kind as a value.
pub enum EdgeKindV {
    Plain,
    On { event: Seq<char> },
    Returns { status: Option<u16>, code: Option<Seq<char>> },
    Calls,
    CheckFail { check: Seq<char>, status: Option<u16>, code: Option<Seq<char>> },
}

impl View for EdgeKind {
    type V = EdgeKindV;

    open spec fn view(&self) -> EdgeKindV {
        match self {
            EdgeKind::Plain => EdgeKindV::Plain,
            EdgeKind::On { event } => EdgeKindV::On { event: event@ },
            EdgeKind::Returns { status, code } => EdgeKindV::Returns { status: *status, code: ostr(*code) },
            EdgeKind::Calls => EdgeKindV::Calls,
            EdgeKind::CheckFail { check, status, code } => EdgeKindV::CheckFail { check: check@, status: *status, code: ostr(*code) },
        }
    }
}

/// An edge as a value.
pub struct EdgeV {
    pub to: Seq<char>,
    pub kind: EdgeKindV,
    pub when: Option<Seq<char>>,
    pub case: Option<Seq<char>>,
    pub seq: Option<u32>,
    pub line: usize,
}

impl View for Edge {
    type V = EdgeV;

    open spec fn view(&self) -> EdgeV {
        EdgeV { to: self.to@, kind: self.kind@, when: ostr(self.when), case: ostr(self.case), seq: self.seq, line: self.line }
    }
}

/// A check use as a value.
pub struct CheckUseV {
    pub name: Seq<char>,
    pub fail: Option<u16>,
    pub code: Option<Seq<char>>,
    pub to: Option<Seq<char>>,
    pub outcome: Option<Seq<char>>,
    pub line: usize,
}

impl View for CheckUse {
    type V = CheckUseV;

    open spec fn view(&self) -> CheckUseV {
        CheckUseV { name: self.name@, fail: self.fail, code: ostr(self.code), to: ostr(self.to), outcome: ostr(self.outcome), line: self.line }
    }
}

impl View for SetVar {
    type V = (Seq<char>, Seq<char>, usize);

    open spec fn view(&self) -> (Seq<char>, Seq<char>, usize) {
        (self.var@, self.value@, self.line)
    }
}

/// An end without a node, as a value.
pub struct OutcomeV {
    pub status: Option<u16>,
    pub code: Option<Seq<char>>,
    pub text: Seq<char>,
    pub when: Option<Seq<char>>,
    pub case: Option<Seq<char>>,
    pub arrow: bool,
    pub line: usize,
}

impl View for Outcome {
    type V = OutcomeV;

    open spec fn view(&self) -> OutcomeV {
        OutcomeV { status: self.status, code: ostr(self.code), text: self.text@, when: ostr(self.when), case: ostr(self.case), arrow: self.arrow, line: self.line }
    }
}

/// The attributes as a map from key to value.
pub open spec fn attr_map_has(a: Seq<Attr>, m: Map<Seq<char>, Seq<char>>) -> bool {
    forall|k: Seq<char>| #[trigger] attr_lookup(a, k) == (if m.dom().contains(k) { Some(m[k]) } else { None })
}

} // verus!
