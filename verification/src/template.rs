//! The template compiler.
//!
//! A key template is text with placeholders: `{` followed by one or more
//! dot-separated identifiers, followed by `}`, as in `"user2:{p.id}-{p.token}"`.
//! Everything else is literal text. A `{` with no `}` anywhere after it, and a
//! `}` that closes nothing, are literal characters, not errors; but once a `{`
//! does have a later `}`, the text between them must be a well-formed
//! dot-separated path, or the whole template is rejected.
//!
//! Compilation yields an ordered plan of literal fragments and field paths.
//! Rendering the plan back — literals as they are, a path `["p","id"]` as
//! `{p.id}` — reproduces the original template text exactly; that round trip
//! is proved below ([`lemma_template_round_trip`]).

use vstd::prelude::*;
use crate::value::push_char;

verus! {

/// Rejection of a template whose placeholder text is malformed: an empty
/// `{}`, an identifier with an invalid character, an empty path segment.
#[derive(Debug, PartialEq, Eq)]
pub enum TemplateError {
    MalformedPlaceholder,
}

/// One compiled segment: a literal fragment, or a placeholder's field path.
#[derive(Debug, PartialEq, Eq)]
pub enum Segment {
    Literal(String),
    Place(Vec<String>),
}

/// The compiled plan: segments in template order.
#[derive(Debug, PartialEq, Eq)]
pub struct KeyTemplate {
    pub segments: Vec<Segment>,
}

/// The mathematical model of a segment.
pub enum SpecSegment {
    Lit(Seq<char>),
    Place(Seq<Seq<char>>),
}

/// The model of a list of path segments.
pub open spec fn strs_model(p: Seq<String>) -> Seq<Seq<char>> {
    p.map_values(|x: String| x@)
}

/// The model of a list of compiled segments.
pub open spec fn segs_model(s: Seq<Segment>) -> Seq<SpecSegment> {
    s.map_values(|g: Segment| g@)
}

impl View for Segment {
    type V = SpecSegment;

    open spec fn view(&self) -> SpecSegment {
        match self {
            Segment::Literal(l) => SpecSegment::Lit(l@),
            Segment::Place(p) => SpecSegment::Place(strs_model(p@)),
        }
    }
}

impl View for KeyTemplate {
    type V = Seq<SpecSegment>;

    open spec fn view(&self) -> Seq<SpecSegment> {
        segs_model(self.segments@)
    }
}

/// May a character begin an identifier?
pub open spec fn is_ident_start(c: char) -> bool {
    c == '_' || ('a' <= c && c <= 'z') || ('A' <= c && c <= 'Z')
}

/// May a character continue an identifier?
pub open spec fn is_ident_char(c: char) -> bool {
    is_ident_start(c) || ('0' <= c && c <= '9')
}

/// A well-formed identifier: nonempty, a letter or underscore first, then
/// letters, digits and underscores.
pub open spec fn is_ident(s: Seq<char>) -> bool {
    &&& s.len() > 0
    &&& is_ident_start(s[0])
    &&& forall|k: int| 1 <= k < s.len() ==> is_ident_char(#[trigger] s[k])
}

/// Index of the first `.` at or after `i`, or `s.len()` if there is none.
pub open spec fn find_dot(s: Seq<char>, i: int) -> int
    decreases s.len() - i,
{
    if i < 0 || i >= s.len() {
        s.len() as int
    } else if s[i] == '.' {
        i
    } else {
        find_dot(s, i + 1)
    }
}

pub proof fn lemma_find_dot(s: Seq<char>, i: int)
    requires
        0 <= i <= s.len(),
    ensures
        i <= find_dot(s, i) <= s.len(),
        find_dot(s, i) < s.len() ==> s[find_dot(s, i)] == '.',
        forall|k: int| i <= k < find_dot(s, i) ==> s[k] != '.',
    decreases s.len() - i,
{
    if i < s.len() && s[i] != '.' {
        lemma_find_dot(s, i + 1);
    }
}

/// The path between `{` and `}`, parsed from position `i` on: dot-separated
/// well-formed identifiers, or nothing if any segment is malformed.
pub open spec fn parse_path_from(s: Seq<char>, i: int) -> Option<Seq<Seq<char>>>
    decreases s.len() - i,
    when 0 <= i <= s.len()
    via parse_path_from_decreases
{
    let d = find_dot(s, i);
    let seg = s.subrange(i, d);
    if !is_ident(seg) {
        None
    } else if d == s.len() {
        Some(seq![seg])
    } else {
        match parse_path_from(s, d + 1) {
            None => None,
            Some(rest) => Some(seq![seg] + rest),
        }
    }
}

#[via_fn]
proof fn parse_path_from_decreases(s: Seq<char>, i: int) {
    lemma_find_dot(s, i);
}

/// Index of the first `}` at or after `i`, or `s.len()` if there is none.
pub open spec fn find_close(s: Seq<char>, i: int) -> int
    decreases s.len() - i,
{
    if i < 0 || i >= s.len() {
        s.len() as int
    } else if s[i] == '}' {
        i
    } else {
        find_close(s, i + 1)
    }
}

pub proof fn lemma_find_close(s: Seq<char>, i: int)
    requires
        0 <= i <= s.len(),
    ensures
        i <= find_close(s, i) <= s.len(),
        find_close(s, i) < s.len() ==> s[find_close(s, i)] == '}',
        forall|k: int| i <= k < find_close(s, i) ==> s[k] != '}',
    decreases s.len() - i,
{
    if i < s.len() && s[i] != '}' {
        lemma_find_close(s, i + 1);
    }
}

/// Does position `p` open a placeholder: a `{` with a `}` somewhere after it?
pub open spec fn is_opener(s: Seq<char>, p: int) -> bool {
    &&& 0 <= p < s.len()
    &&& s[p] == '{'
    &&& find_close(s, p + 1) < s.len()
}

/// Index of the first placeholder opener at or after `i`, or `s.len()`.
pub open spec fn find_opener(s: Seq<char>, i: int) -> int
    decreases s.len() - i,
{
    if i < 0 || i >= s.len() {
        s.len() as int
    } else if is_opener(s, i) {
        i
    } else {
        find_opener(s, i + 1)
    }
}

pub proof fn lemma_find_opener(s: Seq<char>, i: int)
    requires
        0 <= i <= s.len(),
    ensures
        i <= find_opener(s, i) <= s.len(),
        find_opener(s, i) < s.len() ==> is_opener(s, find_opener(s, i)),
        forall|k: int| i <= k < find_opener(s, i) ==> !is_opener(s, k),
    decreases s.len() - i,
{
    if i < s.len() && !is_opener(s, i) {
        lemma_find_opener(s, i + 1);
    }
}

/// The scanner: the compiled plan of `s` from position `i` on, or nothing if
/// some placeholder is malformed.
pub open spec fn spec_scan(s: Seq<char>, i: int) -> Option<Seq<SpecSegment>>
    decreases s.len() - i,
    when 0 <= i <= s.len()
    via spec_scan_decreases
{
    if i >= s.len() {
        Some(Seq::empty())
    } else if is_opener(s, i) {
        let j = find_close(s, i + 1);
        match parse_path_from(s.subrange(i + 1, j), 0) {
            None => None,
            Some(path) => match spec_scan(s, j + 1) {
                None => None,
                Some(rest) => Some(seq![SpecSegment::Place(path)] + rest),
            },
        }
    } else {
        let k = find_opener(s, i + 1);
        match spec_scan(s, k) {
            None => None,
            Some(rest) => Some(seq![SpecSegment::Lit(s.subrange(i, k))] + rest),
        }
    }
}

#[via_fn]
proof fn spec_scan_decreases(s: Seq<char>, i: int) {
    if 0 <= i < s.len() {
        lemma_find_close(s, i + 1);
        lemma_find_opener(s, i + 1);
    }
}

/// A path rendered back to text: segments joined with `.`.
pub open spec fn path_text(path: Seq<Seq<char>>) -> Seq<char>
    decreases path.len(),
{
    if path.len() == 0 {
        Seq::empty()
    } else if path.len() == 1 {
        path[0]
    } else {
        path[0] + seq!['.'] + path_text(path.drop_first())
    }
}

/// A segment rendered back to text: a literal as it is, a path in braces.
pub open spec fn seg_text(seg: SpecSegment) -> Seq<char> {
    match seg {
        SpecSegment::Lit(l) => l,
        SpecSegment::Place(path) => seq!['{'] + path_text(path) + seq!['}'],
    }
}

/// A plan rendered back to text: its segments' texts in order.
pub open spec fn plan_text(segs: Seq<SpecSegment>) -> Seq<char>
    decreases segs.len(),
{
    if segs.len() == 0 {
        Seq::empty()
    } else {
        seg_text(segs[0]) + plan_text(segs.drop_first())
    }
}

/// A well-formed plan: every placeholder path is nonempty and made of
/// well-formed identifiers.
pub open spec fn plan_wf(segs: Seq<SpecSegment>) -> bool {
    forall|k: int|
        0 <= k < segs.len() ==> (#[trigger] segs[k] matches SpecSegment::Place(p) ==> {
            &&& p.len() > 0
            &&& forall|t: int| 0 <= t < p.len() ==> is_ident(#[trigger] p[t])
        })
}

/// A parsed path re-joins, with dots, to exactly the text it came from, and
/// all its segments are well-formed identifiers.
pub proof fn lemma_path_round_trip(s: Seq<char>, i: int)
    requires
        0 <= i <= s.len(),
        parse_path_from(s, i) is Some,
    ensures
        parse_path_from(s, i) matches Some(p) ==> {
            &&& path_text(p) == s.subrange(i, s.len() as int)
            &&& p.len() > 0
            &&& forall|t: int| 0 <= t < p.len() ==> is_ident(#[trigger] p[t])
        },
    decreases s.len() - i,
{
    lemma_find_dot(s, i);
    let d = find_dot(s, i);
    let seg = s.subrange(i, d);
    if is_ident(seg) && d < s.len() {
        lemma_path_round_trip(s, d + 1);
        let rest = parse_path_from(s, d + 1)->Some_0;
        let p = parse_path_from(s, i)->Some_0;
        assert(p =~= seq![seg] + rest);
        assert(p.drop_first() =~= rest);
        assert(path_text(p) =~= s.subrange(i, s.len() as int));
    } else if is_ident(seg) {
        let p = parse_path_from(s, i)->Some_0;
        assert(path_text(p) == seg);
        assert(seg =~= s.subrange(i, s.len() as int));
    }
}

/// A scanned plan renders back to exactly the text it came from, and is
/// well-formed.
pub proof fn lemma_scan_round_trip(s: Seq<char>, i: int)
    requires
        0 <= i <= s.len(),
        spec_scan(s, i) is Some,
    ensures
        spec_scan(s, i) matches Some(segs) ==> {
            &&& plan_text(segs) == s.subrange(i, s.len() as int)
            &&& plan_wf(segs)
        },
    decreases s.len() - i,
{
    if i >= s.len() {
        let segs = spec_scan(s, i)->Some_0;
        assert(plan_text(segs) =~= s.subrange(i, s.len() as int));
    } else if is_opener(s, i) {
        lemma_find_close(s, i + 1);
        let j = find_close(s, i + 1);
        let content = s.subrange(i + 1, j);
        lemma_path_round_trip(content, 0);
        let path = parse_path_from(content, 0)->Some_0;
        assert(content.subrange(0, content.len() as int) =~= content);
        lemma_scan_round_trip(s, j + 1);
        let rest = spec_scan(s, j + 1)->Some_0;
        let segs = spec_scan(s, i)->Some_0;
        assert(segs =~= seq![SpecSegment::Place(path)] + rest);
        assert(segs.drop_first() =~= rest);
        assert(seg_text(SpecSegment::Place(path)) =~= s.subrange(i, j + 1));
        assert(plan_text(segs) =~= s.subrange(i, s.len() as int));
    } else {
        lemma_find_opener(s, i + 1);
        let k = find_opener(s, i + 1);
        lemma_scan_round_trip(s, k);
        let rest = spec_scan(s, k)->Some_0;
        let segs = spec_scan(s, i)->Some_0;
        assert(segs =~= seq![SpecSegment::Lit(s.subrange(i, k))] + rest);
        assert(segs.drop_first() =~= rest);
        assert(plan_text(segs) =~= s.subrange(i, s.len() as int));
    }
}

/// Law: template round trip. A template text that compiles re-renders, from
/// its literal and placeholder structure, to exactly the original text.
pub proof fn lemma_template_round_trip(s: Seq<char>)
    requires
        spec_scan(s, 0) is Some,
    ensures
        spec_scan(s, 0) matches Some(segs) ==> plan_text(segs) == s,
{
    lemma_scan_round_trip(s, 0);
    assert(s.subrange(0, s.len() as int) =~= s);
}

fn ident_start_char(c: char) -> (r: bool)
    ensures
        r == is_ident_start(c),
{
    c == '_' || (c >= 'a' && c <= 'z') || (c >= 'A' && c <= 'Z')
}

fn ident_char(c: char) -> (r: bool)
    ensures
        r == is_ident_char(c),
{
    ident_start_char(c) || (c >= '0' && c <= '9')
}

fn check_ident(s: &str) -> (r: bool)
    ensures
        r == is_ident(s@),
{
    let n = s.unicode_len();
    if n == 0 {
        return false;
    }
    if !ident_start_char(s.get_char(0)) {
        return false;
    }
    let mut k: usize = 1;
    while k < n
        invariant
            1 <= k <= n,
            n == s@.len(),
            is_ident_start(s@[0]),
            forall|t: int| 1 <= t < k ==> is_ident_char(#[trigger] s@[t]),
        decreases n - k,
    {
        if !ident_char(s.get_char(k)) {
            return false;
        }
        k = k + 1;
    }
    true
}

fn find_dot_at(s: &str, i: usize) -> (r: usize)
    requires
        i <= s@.len(),
    ensures
        r == find_dot(s@, i as int),
    decreases s@.len() - i,
{
    let n = s.unicode_len();
    if i >= n {
        n
    } else if s.get_char(i) == '.' {
        i
    } else {
        find_dot_at(s, i + 1)
    }
}

fn find_close_at(s: &str, i: usize) -> (r: usize)
    requires
        i <= s@.len(),
    ensures
        r == find_close(s@, i as int),
    decreases s@.len() - i,
{
    let n = s.unicode_len();
    if i >= n {
        n
    } else if s.get_char(i) == '}' {
        i
    } else {
        find_close_at(s, i + 1)
    }
}

fn opener_at(s: &str, i: usize) -> (r: bool)
    requires
        i <= s@.len(),
    ensures
        r == is_opener(s@, i as int),
{
    let n = s.unicode_len();
    if i >= n {
        false
    } else if s.get_char(i) != '{' {
        false
    } else {
        find_close_at(s, i + 1) < n
    }
}

fn find_opener_at(s: &str, i: usize) -> (r: usize)
    requires
        i <= s@.len(),
    ensures
        r == find_opener(s@, i as int),
    decreases s@.len() - i,
{
    let n = s.unicode_len();
    if i >= n {
        n
    } else if opener_at(s, i) {
        i
    } else {
        find_opener_at(s, i + 1)
    }
}

fn parse_path_exec(s: &str, i: usize) -> (r: Option<Vec<String>>)
    requires
        i <= s@.len(),
    ensures
        match r {
            Some(p) => parse_path_from(s@, i as int) == Some(strs_model(p@)),
            None => parse_path_from(s@, i as int) is None,
        },
    decreases s@.len() - i,
{
    let n = s.unicode_len();
    let d = find_dot_at(s, i);
    proof {
        lemma_find_dot(s@, i as int);
    }
    let seg = s.substring_char(i, d);
    if !check_ident(seg) {
        return None;
    }
    if d == n {
        let mut p: Vec<String> = Vec::new();
        p.push(seg.to_owned());
        proof {
            assert(strs_model(p@) =~= seq![seg@]);
        }
        Some(p)
    } else {
        match parse_path_exec(s, d + 1) {
            None => None,
            Some(rest) => {
                let mut p: Vec<String> = Vec::new();
                p.push(seg.to_owned());
                let ghost rest0 = rest@;
                let mut rest = rest;
                p.append(&mut rest);
                proof {
                    assert(strs_model(p@) =~= seq![seg@] + strs_model(rest0));
                }
                Some(p)
            },
        }
    }
}

fn scan_exec(s: &str, i: usize) -> (r: Result<Vec<Segment>, TemplateError>)
    requires
        i <= s@.len(),
    ensures
        match r {
            Ok(segs) => spec_scan(s@, i as int) == Some(segs_model(segs@)),
            Err(_) => spec_scan(s@, i as int) is None,
        },
    decreases s@.len() - i,
{
    let n = s.unicode_len();
    if i >= n {
        let segs: Vec<Segment> = Vec::new();
        proof {
            assert(segs_model(segs@) =~= Seq::<SpecSegment>::empty());
        }
        return Ok(segs);
    }
    if opener_at(s, i) {
        let j = find_close_at(s, i + 1);
        proof {
            lemma_find_close(s@, i as int + 1);
        }
        let content = s.substring_char(i + 1, j);
        match parse_path_exec(content, 0) {
            None => Err(TemplateError::MalformedPlaceholder),
            Some(path) => match scan_exec(s, j + 1) {
                Err(e) => Err(e),
                Ok(rest) => {
                    let ghost path0 = strs_model(path@);
                    let mut segs: Vec<Segment> = Vec::new();
                    segs.push(Segment::Place(path));
                    let ghost rest0 = rest@;
                    let mut rest = rest;
                    segs.append(&mut rest);
                    proof {
                        assert(segs_model(segs@) =~= seq![SpecSegment::Place(path0)]
                            + segs_model(rest0));
                    }
                    Ok(segs)
                },
            },
        }
    } else {
        let k = find_opener_at(s, i + 1);
        proof {
            lemma_find_opener(s@, i as int + 1);
        }
        let lit = s.substring_char(i, k).to_owned();
        match scan_exec(s, k) {
            Err(e) => Err(e),
            Ok(rest) => {
                let ghost lit0 = lit@;
                let mut segs: Vec<Segment> = Vec::new();
                segs.push(Segment::Literal(lit));
                let ghost rest0 = rest@;
                let mut rest = rest;
                segs.append(&mut rest);
                proof {
                    assert(segs_model(segs@) =~= seq![SpecSegment::Lit(lit0)]
                        + segs_model(rest0));
                }
                Ok(segs)
            },
        }
    }
}

proof fn lemma_path_text_snoc(p: Seq<Seq<char>>, x: Seq<char>)
    requires
        p.len() >= 1,
    ensures
        path_text(p.push(x)) == path_text(p) + seq!['.'] + x,
    decreases p.len(),
{
    let q = p.push(x);
    assert(q[0] == p[0]);
    if p.len() == 1 {
        assert(q.drop_first() =~= seq![x]);
        assert(path_text(seq![x]) == x);
        assert(path_text(q) == p[0] + seq!['.'] + x);
        assert(path_text(q) =~= path_text(p) + seq!['.'] + x);
    } else {
        lemma_path_text_snoc(p.drop_first(), x);
        assert(q.drop_first() =~= p.drop_first().push(x));
        assert(path_text(q) == p[0] + seq!['.'] + (path_text(p.drop_first()) + seq!['.'] + x));
        assert(path_text(p) == p[0] + seq!['.'] + path_text(p.drop_first()));
        assert(path_text(q) =~= path_text(p) + seq!['.'] + x);
    }
}

proof fn lemma_plan_text_snoc(segs: Seq<SpecSegment>, x: SpecSegment)
    ensures
        plan_text(segs.push(x)) == plan_text(segs) + seg_text(x),
    decreases segs.len(),
{
    let q = segs.push(x);
    if segs.len() == 0 {
        assert(q[0] == x);
        assert(q.drop_first() =~= Seq::<SpecSegment>::empty());
        assert(plan_text(q) == seg_text(x) + plan_text(Seq::<SpecSegment>::empty()));
        assert(plan_text(q) =~= plan_text(segs) + seg_text(x));
    } else {
        lemma_plan_text_snoc(segs.drop_first(), x);
        assert(q[0] == segs[0]);
        assert(q.drop_first() =~= segs.drop_first().push(x));
        assert(plan_text(q) == seg_text(segs[0]) + (plan_text(segs.drop_first()) + seg_text(x)));
        assert(plan_text(segs) == seg_text(segs[0]) + plan_text(segs.drop_first()));
        assert(plan_text(q) =~= plan_text(segs) + seg_text(x));
    }
}

fn append_path(out: &mut String, path: &Vec<String>)
    requires
        path@.len() > 0,
    ensures
        final(out)@ == old(out)@ + path_text(strs_model(path@)),
{
    let n = path.len();
    out.append(path[0].as_str());
    proof {
        assert(strs_model(path@).take(1) =~= seq![strs_model(path@)[0]]);
    }
    let mut k: usize = 1;
    while k < n
        invariant
            1 <= k <= n,
            n == path@.len(),
            out@ == old(out)@ + path_text(strs_model(path@).take(k as int)),
        decreases n - k,
    {
        push_char(out, '.');
        out.append(path[k].as_str());
        proof {
            let m = strs_model(path@);
            assert(m.take(k as int + 1) =~= m.take(k as int).push(m[k as int]));
            lemma_path_text_snoc(m.take(k as int), m[k as int]);
            assert(out@ =~= old(out)@ + path_text(m.take(k as int + 1)));
        }
        k = k + 1;
    }
    proof {
        assert(strs_model(path@).take(n as int) =~= strs_model(path@));
    }
}

impl KeyTemplate {
    /// A well-formed plan: every placeholder path is nonempty, made of
    /// well-formed identifiers.
    pub open spec fn wf(self) -> bool {
        plan_wf(self@)
    }

    /// Compile a template text into its plan.
    ///
    /// Succeeds, with a well-formed plan that renders back to exactly
    /// `text`, if and only if every placeholder of `text` is well-formed.
    pub fn compile(text: &str) -> (r: Result<KeyTemplate, TemplateError>)
        ensures
            match r {
                Ok(t) => {
                    &&& spec_scan(text@, 0) == Some(t@)
                    &&& t.wf()
                    &&& plan_text(t@) == text@
                },
                Err(_) => spec_scan(text@, 0) is None,
            },
    {
        match scan_exec(text, 0) {
            Err(e) => Err(e),
            Ok(segs) => {
                let t = KeyTemplate { segments: segs };
                proof {
                    lemma_template_round_trip(text@);
                    lemma_scan_round_trip(text@, 0);
                }
                Ok(t)
            },
        }
    }

    /// Render the plan back to template text.
    pub fn render(&self) -> (r: String)
        ensures
            r@ == plan_text(self@),
    {
        let mut out = String::new();
        let n = self.segments.len();
        let mut k: usize = 0;
        while k < n
            invariant
                k <= n,
                n == self.segments@.len(),
                out@ == plan_text(self@.take(k as int)),
            decreases n - k,
        {
            let ghost plan = self@;
            match &self.segments[k] {
                Segment::Literal(l) => {
                    out.append(l.as_str());
                },
                Segment::Place(path) => {
                    push_char(&mut out, '{');
                    if path.len() > 0 {
                        append_path(&mut out, path);
                    }
                    push_char(&mut out, '}');
                },
            }
            proof {
                assert(plan.take(k as int + 1) =~= plan.take(k as int).push(plan[k as int]));
                lemma_plan_text_snoc(plan.take(k as int), plan[k as int]);
                assert(out@ =~= plan_text(plan.take(k as int + 1)));
            }
            k = k + 1;
        }
        proof {
            assert(self@.take(n as int) =~= self@);
        }
        out
    }
}

} // verus!
