//! Tag extraction: parse a file with tree-sitter, run its tag query and turn
//! the query's captures into definition and reference tags.

use vstd::prelude::*;
use crate::lang::{
    detect, has_all_queries, language_of_path, query_capture_names, query_file, query_lookup, run_tag_query,
    tag_query_names, tag_query_raw, Lang, LangId, TagQueries,
};
use crate::bytes::{byte_offset, char_offsets, char_pos, find_boundary, is_boundary, lemma_offsets_increase};
use crate::order::{index_seq, lemma_index_seq_contains, lemma_sort_by_congruent, lemma_sort_by_contents, sort_by, sort_indices};
use crate::text::{
    all_lack, lacks, lemma_join_lacks, lemma_lines_lack_newline, lemma_subrange_lacks, lemma_trim_lacks,
    chars_eq, chars_of, contains_chars, decimal, decimal_chars, pad_left, pad_left_chars, pad_right, pad_right_chars, contains_seq, extend_chars, has_prefix, has_suffix, join, join_chars, lines, lines_of, seqs_of, slice_chars, starts_with,
    ends_with, string_of, trim, trim_chars,
};

verus! {

/// Whether a tag names a definition or a reference.
#[derive(Debug, Clone, Copy, PartialEq, Eq, Structural)]
pub enum Kind {
    Def,
    Ref,
}

/// One definition or reference found in a file.
#[derive(Debug, Clone)]
pub struct Tag {
    pub name: String,
    pub kind: Kind,
    /// 1-based start line of the name node.
    pub line: usize,
    /// 1-based end line of the enclosing definition node (== `line` for refs).
    pub end_line: usize,
    /// Byte range of the enclosing definition node.
    pub start_byte: usize,
    pub end_byte: usize,
    pub doc: Option<String>,
    pub doc_line: Option<usize>,
}

/// Mathematical value of a `Tag`.
pub struct TagView {
    pub name: Seq<char>,
    pub kind: Kind,
    pub line: usize,
    pub end_line: usize,
    pub start_byte: usize,
    pub end_byte: usize,
    pub doc: Option<Seq<char>>,
    pub doc_line: Option<usize>,
}

pub open spec fn opt_str_view(o: Option<String>) -> Option<Seq<char>> {
    match o {
        Some(s) => Some(s@),
        None => None,
    }
}

impl View for Tag {
    type V = TagView;

    open spec fn view(&self) -> TagView {
        TagView {
            name: self.name@,
            kind: self.kind,
            line: self.line,
            end_line: self.end_line,
            start_byte: self.start_byte,
            end_byte: self.end_byte,
            doc: opt_str_view(self.doc),
            doc_line: self.doc_line,
        }
    }
}

pub open spec fn tags_view(v: Seq<Tag>) -> Seq<TagView> {
    v.map_values(|t: Tag| t@)
}

// ---------------------------------------------------------------------------
// Comment markers
// ---------------------------------------------------------------------------

/// Drops the first comment marker that `t` starts with.
pub open spec fn strip_marker(t: Seq<char>) -> Seq<char> {
    if starts_with(t, "///"@) {
        t.skip("///"@.len() as int)
    } else if starts_with(t, "//!"@) {
        t.skip("//!"@.len() as int)
    } else if starts_with(t, "//"@) {
        t.skip("//"@.len() as int)
    } else if starts_with(t, "/**"@) {
        t.skip("/**"@.len() as int)
    } else if starts_with(t, "/*"@) {
        t.skip("/*"@.len() as int)
    } else if starts_with(t, "*/"@) {
        t.skip("*/"@.len() as int)
    } else if starts_with(t, "* "@) {
        t.skip("* "@.len() as int)
    } else if starts_with(t, "*"@) {
        t.skip("*"@.len() as int)
    } else if starts_with(t, "#"@) {
        t.skip("#"@.len() as int)
    } else {
        t
    }
}

/// Repeatedly removes the suffix `p` (a non-empty pattern) from `s`.
pub open spec fn trim_end_matches(s: Seq<char>, p: Seq<char>) -> Seq<char>
    decreases s.len(),
{
    if p.len() > 0 && ends_with(s, p) {
        trim_end_matches(s.take(s.len() - p.len()), p)
    } else {
        s
    }
}

/// One comment line without markers and surrounding whitespace.
pub open spec fn clean_comment_line(line: Seq<char>) -> Seq<char> {
    trim(trim_end_matches(strip_marker(trim(line)), "*/"@))
}

/// The cleaned lines that are not empty, in order.
pub open spec fn cleaned_nonempty(lines: Seq<Seq<char>>) -> Seq<Seq<char>>
    decreases lines.len(),
{
    if lines.len() == 0 {
        seq![]
    } else {
        let rest = cleaned_nonempty(lines.drop_last());
        let c = clean_comment_line(lines.last());
        if c.len() == 0 {
            rest
        } else {
            rest.push(c)
        }
    }
}

/// Comment text with its markers stripped, collapsed to a single line.
pub open spec fn stripped_comment(raw: Seq<char>) -> Seq<char> {
    join(cleaned_nonempty(lines_of(raw)), " "@)
}

proof fn lemma_trim_end_matches_lacks(s: Seq<char>, p: Seq<char>, c: char)
    requires
        lacks(s, c),
    ensures
        lacks(trim_end_matches(s, p), c),
    decreases s.len(),
{
    if p.len() > 0 && ends_with(s, p) {
        lemma_subrange_lacks(s, c, 0, s.len() - p.len());
        assert(s.take(s.len() - p.len()) == s.subrange(0, s.len() - p.len()));
        lemma_trim_end_matches_lacks(s.take(s.len() - p.len()), p, c);
    }
}

proof fn lemma_clean_comment_line_lacks(line: Seq<char>, c: char)
    requires
        lacks(line, c),
    ensures
        lacks(clean_comment_line(line), c),
{
    let t = trim(line);
    lemma_trim_lacks(line, c);
    let m = strip_marker(t);
    assert(lacks(m, c)) by {
        reveal_strlit("///");
        reveal_strlit("//!");
        reveal_strlit("//");
        reveal_strlit("/**");
        reveal_strlit("/*");
        reveal_strlit("*/");
        reveal_strlit("* ");
        reveal_strlit("*");
        reveal_strlit("#");
        let n = t.len() as int;
        if starts_with(t, "///"@) || starts_with(t, "//!"@) {
            assert(m =~= t.subrange(3, n));
            lemma_subrange_lacks(t, c, 3, n);
        } else if starts_with(t, "//"@) {
            assert(m =~= t.subrange(2, n));
            lemma_subrange_lacks(t, c, 2, n);
        } else if starts_with(t, "/**"@) {
            assert(m =~= t.subrange(3, n));
            lemma_subrange_lacks(t, c, 3, n);
        } else if starts_with(t, "/*"@) || starts_with(t, "*/"@) || starts_with(t, "* "@) {
            assert(m =~= t.subrange(2, n));
            lemma_subrange_lacks(t, c, 2, n);
        } else if starts_with(t, "*"@) || starts_with(t, "#"@) {
            assert(m =~= t.subrange(1, n));
            lemma_subrange_lacks(t, c, 1, n);
        }
    }
    lemma_trim_end_matches_lacks(m, "*/"@, c);
    lemma_trim_lacks(trim_end_matches(m, "*/"@), c);
}

proof fn lemma_cleaned_nonempty_lacks(lines: Seq<Seq<char>>, c: char)
    requires
        all_lack(lines, c),
    ensures
        all_lack(cleaned_nonempty(lines), c),
    decreases lines.len(),
{
    if lines.len() > 0 {
        let init = lines.drop_last();
        assert forall|k: int| 0 <= k < init.len() implies lacks(#[trigger] init[k], c) by {
            assert(init[k] == lines[k]);
        }
        lemma_cleaned_nonempty_lacks(init, c);
        assert(lacks(lines[lines.len() - 1], c));
        lemma_clean_comment_line_lacks(lines.last(), c);
        let rest = cleaned_nonempty(init);
        let cl = clean_comment_line(lines.last());
        if cl.len() > 0 {
            assert forall|k: int| 0 <= k < rest.push(cl).len() implies lacks(#[trigger] rest.push(cl)[k], c) by {
                if k < rest.len() {
                    assert(rest.push(cl)[k] == rest[k]);
                }
            }
        }
    }
}

/// A stripped comment is a single line: it holds no line feed.
pub proof fn stripped_comment_is_one_line(raw: Seq<char>)
    ensures
        lacks(stripped_comment(raw), '\n'),
{
    lemma_lines_lack_newline(raw);
    lemma_cleaned_nonempty_lacks(lines_of(raw), '\n');
    reveal_strlit(" ");
    lemma_join_lacks(cleaned_nonempty(lines_of(raw)), " "@, '\n');
}

fn strip_marker_chars(t: Vec<char>) -> (r: Vec<char>)
    ensures
        r@ == strip_marker(t@),
{
    let m0 = chars_of("///");
    if has_prefix(&t, &m0) {
        return slice_chars(&t, m0.len(), t.len());
    }
    let m1 = chars_of("//!");
    if has_prefix(&t, &m1) {
        return slice_chars(&t, m1.len(), t.len());
    }
    let m2 = chars_of("//");
    if has_prefix(&t, &m2) {
        return slice_chars(&t, m2.len(), t.len());
    }
    let m3 = chars_of("/**");
    if has_prefix(&t, &m3) {
        return slice_chars(&t, m3.len(), t.len());
    }
    let m4 = chars_of("/*");
    if has_prefix(&t, &m4) {
        return slice_chars(&t, m4.len(), t.len());
    }
    let m5 = chars_of("*/");
    if has_prefix(&t, &m5) {
        return slice_chars(&t, m5.len(), t.len());
    }
    let m6 = chars_of("* ");
    if has_prefix(&t, &m6) {
        return slice_chars(&t, m6.len(), t.len());
    }
    let m7 = chars_of("*");
    if has_prefix(&t, &m7) {
        return slice_chars(&t, m7.len(), t.len());
    }
    let m8 = chars_of("#");
    if has_prefix(&t, &m8) {
        return slice_chars(&t, m8.len(), t.len());
    }
    t
}

fn trim_end_matches_chars(s: Vec<char>, p: &Vec<char>) -> (r: Vec<char>)
    requires
        p.len() > 0,
    ensures
        r@ == trim_end_matches(s@, p@),
    decreases s.len(),
{
    if has_suffix(&s, p) {
        let shorter = slice_chars(&s, 0, s.len() - p.len());
        assert(s@.subrange(0, s.len() - p.len()) == s@.take(s.len() - p.len()));
        trim_end_matches_chars(shorter, p)
    } else {
        s
    }
}

fn clean_comment_line_chars(line: &Vec<char>) -> (r: Vec<char>)
    ensures
        r@ == clean_comment_line(line@),
{
    let t = trim_chars(line);
    let t = strip_marker_chars(t);
    let close = chars_of("*/");
    proof {
        reveal_strlit("*/");
    }
    let t = trim_end_matches_chars(t, &close);
    trim_chars(&t)
}

/// Strip comment markers (`//`, `///`, `/*`, `*/`, `*`, `#`) and collapse
/// to a single line.
pub fn strip_comment_markers(raw: &str) -> (r: String)
    ensures
        r@ == stripped_comment(raw@),
{
    let rc = chars_of(raw);
    string_of(&strip_comment_markers_chars(&rc))
}

fn strip_comment_markers_chars(rc: &Vec<char>) -> (r: Vec<char>)
    ensures
        r@ == stripped_comment(rc@),
{
    let ls = lines(rc);
    let mut kept: Vec<Vec<char>> = Vec::new();
    let mut i: usize = 0;
    while i < ls.len()
        invariant
            i <= ls.len(),
            seqs_of(ls@) == lines_of(rc@),
            seqs_of(kept@) == cleaned_nonempty(seqs_of(ls@).take(i as int)),
        decreases ls.len() - i,
    {
        let c = clean_comment_line_chars(&ls[i]);
        let ghost before = kept@;
        assert(seqs_of(ls@).take(i + 1).drop_last() =~= seqs_of(ls@).take(i as int));
        if c.len() > 0 {
            kept.push(c);
            assert(seqs_of(kept@) =~= seqs_of(before).push(c@));
        }
        i = i + 1;
    }
    assert(seqs_of(ls@).take(ls.len() as int) =~= seqs_of(ls@));
    let sep = chars_of(" ");
    join_chars(&kept, &sep)
}


// ---------------------------------------------------------------------------
// Query captures
// ---------------------------------------------------------------------------

/// One node captured by a tag query: the capture's position in the query's
/// capture names, the node's byte range and its rows.
#[derive(Debug, Clone, Copy, PartialEq, Eq, Structural)]
pub struct RawCapture {
    pub index: usize,
    pub start_byte: usize,
    pub end_byte: usize,
    /// 0-based rows of the node's first and last character.
    pub start_row: usize,
    pub end_row: usize,
}

impl RawCapture {
    /// A capture from its fields, in declaration order.
    pub fn new(index: usize, start_byte: usize, end_byte: usize, start_row: usize, end_row: usize) -> (r: RawCapture)
        ensures
            r == (RawCapture { index, start_byte, end_byte, start_row, end_row }),
    {
        RawCapture { index, start_byte, end_byte, start_row, end_row }
    }
}

/// One node captured by a tag query, with the capture's name.
pub struct Capture {
    /// Capture name as written in the query (e.g. `name.definition.function`).
    pub name: String,
    pub start_byte: usize,
    pub end_byte: usize,
    /// 0-based rows of the node's first and last character.
    pub start_row: usize,
    pub end_row: usize,
    /// The node's source text, when that byte range is valid UTF-8.
    pub text: Option<String>,
}

pub struct CaptureView {
    pub name: Seq<char>,
    pub start_byte: usize,
    pub end_byte: usize,
    pub start_row: usize,
    pub end_row: usize,
    pub text: Option<Seq<char>>,
}

impl View for Capture {
    type V = CaptureView;

    open spec fn view(&self) -> CaptureView {
        CaptureView {
            name: self.name@,
            start_byte: self.start_byte,
            end_byte: self.end_byte,
            start_row: self.start_row,
            end_row: self.end_row,
            text: opt_str_view(self.text),
        }
    }
}

pub open spec fn match_view(m: Seq<Capture>) -> Seq<CaptureView> {
    m.map_values(|c: Capture| c@)
}

pub open spec fn matches_view(ms: Seq<Vec<Capture>>) -> Seq<Seq<CaptureView>> {
    ms.map_values(|m: Vec<Capture>| match_view(m@))
}

/// Every captured row can be turned into a 1-based line number.
pub open spec fn rows_fit(ms: Seq<Seq<CaptureView>>) -> bool {
    forall|i: int, j: int|
        0 <= i < ms.len() && 0 <= j < ms[i].len() ==> (#[trigger] ms[i][j]).start_row < usize::MAX
            && ms[i][j].end_row < usize::MAX
}

/// What a scan over one match's captures has seen so far.
pub struct ScanState {
    pub name_cap: Option<CaptureView>,
    pub full_cap: Option<CaptureView>,
    pub kind: Option<Kind>,
    pub docs: Seq<CaptureView>,
}

pub open spec fn scan_step(st: ScanState, c: CaptureView) -> ScanState {
    if c.name == "doc"@ {
        ScanState { name_cap: st.name_cap, full_cap: st.full_cap, kind: st.kind, docs: st.docs.push(c) }
    } else if starts_with(c.name, "name."@) {
        let kind = if contains_seq(c.name, "definition"@) {
            Some(Kind::Def)
        } else if contains_seq(c.name, "reference"@) {
            Some(Kind::Ref)
        } else {
            st.kind
        };
        ScanState { name_cap: Some(c), full_cap: st.full_cap, kind, docs: st.docs }
    } else if starts_with(c.name, "definition"@) {
        let kind = if st.kind is Some { st.kind } else { Some(Kind::Def) };
        ScanState { name_cap: st.name_cap, full_cap: Some(c), kind, docs: st.docs }
    } else if starts_with(c.name, "reference"@) {
        let kind = if st.kind is Some { st.kind } else { Some(Kind::Ref) };
        ScanState { name_cap: st.name_cap, full_cap: Some(c), kind, docs: st.docs }
    } else {
        st
    }
}

pub open spec fn scan(m: Seq<CaptureView>) -> ScanState
    decreases m.len(),
{
    if m.len() == 0 {
        ScanState { name_cap: None, full_cap: None, kind: None, docs: seq![] }
    } else {
        scan_step(scan(m.drop_last()), m.last())
    }
}

/// A doc comment that is not part of any definition's match.
pub struct LooseDoc {
    /// 1-based first and last line of the comment.
    pub start: usize,
    pub end: usize,
    pub text: Vec<char>,
}

pub struct LooseDocView {
    pub start: usize,
    pub end: usize,
    pub text: Seq<char>,
}

impl View for LooseDoc {
    type V = LooseDocView;

    open spec fn view(&self) -> LooseDocView {
        LooseDocView { start: self.start, end: self.end, text: self.text@ }
    }
}

pub open spec fn loose_view(v: Seq<LooseDoc>) -> Seq<LooseDocView> {
    v.map_values(|d: LooseDoc| d@)
}

/// The doc captures that have text, as loose docs (capture order).
pub open spec fn loose_of(docs: Seq<CaptureView>) -> Seq<LooseDocView>
    decreases docs.len(),
{
    if docs.len() == 0 {
        seq![]
    } else {
        let rest = loose_of(docs.drop_last());
        let d = docs.last();
        match d.text {
            Some(t) => rest.push(
                LooseDocView { start: (d.start_row + 1) as usize, end: (d.end_row + 1) as usize, text: t },
            ),
            None => rest,
        }
    }
}

/// The texts that are present, in order.
pub open spec fn present_texts(docs: Seq<CaptureView>) -> Seq<Seq<char>>
    decreases docs.len(),
{
    if docs.len() == 0 {
        seq![]
    } else {
        let rest = present_texts(docs.drop_last());
        match docs.last().text {
            Some(t) => rest.push(t),
            None => rest,
        }
    }
}

/// The doc captures of a match ordered (stably) by start byte.
pub open spec fn docs_in_order(docs: Seq<CaptureView>) -> Seq<CaptureView> {
    sort_by(index_seq(docs.len()), |i: usize| docs[i as int].start_byte as int).map_values(
        |i: usize| docs[i as int],
    )
}

/// The doc text and first doc line that a definition gets from the doc
/// captures of its own match.
pub open spec fn inline_doc(docs: Seq<CaptureView>) -> (Option<Seq<char>>, Option<usize>) {
    if docs.len() == 0 {
        (None, None)
    } else {
        let sorted = docs_in_order(docs);
        let stripped = stripped_comment(join(present_texts(sorted), "\n"@));
        if stripped.len() == 0 {
            (None, None)
        } else {
            (Some(stripped), Some((sorted[0].start_row + 1) as usize))
        }
    }
}

pub enum OutcomeView {
    Nothing,
    Loose(Seq<LooseDocView>),
    Tagged(TagView),
}

/// What one query match contributes.
pub open spec fn match_outcome(m: Seq<CaptureView>) -> OutcomeView {
    let st = scan(m);
    match st.name_cap {
        None => OutcomeView::Loose(loose_of(st.docs)),
        Some(nc) => match st.kind {
            None => OutcomeView::Nothing,
            Some(kind) => match nc.text {
                None => OutcomeView::Nothing,
                Some(name) => if name.len() == 0 {
                    OutcomeView::Nothing
                } else {
                    let body = match st.full_cap {
                        Some(f) => f,
                        None => nc,
                    };
                    let (doc, doc_line) = if kind == Kind::Def {
                        inline_doc(st.docs)
                    } else {
                        (None, None)
                    };
                    OutcomeView::Tagged(
                        TagView {
                            name,
                            kind,
                            line: (nc.start_row + 1) as usize,
                            end_line: if kind == Kind::Def {
                                (body.end_row + 1) as usize
                            } else {
                                (nc.start_row + 1) as usize
                            },
                            start_byte: body.start_byte,
                            end_byte: body.end_byte,
                            doc,
                            doc_line,
                        },
                    )
                },
            },
        },
    }
}

/// Tags and loose docs of a sequence of matches, in match order.
pub open spec fn first_pass(ms: Seq<Seq<CaptureView>>) -> (Seq<TagView>, Seq<LooseDocView>)
    decreases ms.len(),
{
    if ms.len() == 0 {
        (seq![], seq![])
    } else {
        let (ts, ls) = first_pass(ms.drop_last());
        match match_outcome(ms.last()) {
            OutcomeView::Nothing => (ts, ls),
            OutcomeView::Loose(l) => (ts, ls + l),
            OutcomeView::Tagged(t) => (ts.push(t), ls),
        }
    }
}

/// Highest position below `k` of an unused loose doc that ends one or two
/// lines above `line`; -1 if there is none.
pub open spec fn candidate(loose: Seq<LooseDocView>, used: Seq<bool>, line: usize, k: int) -> int
    decreases k,
{
    if k <= 0 {
        -1
    } else if !used[k - 1] && loose[k - 1].end < line && line - loose[k - 1].end <= 2 {
        k - 1
    } else {
        candidate(loose, used, line, k - 1)
    }
}

/// A definition without a doc adopts the nearest unused loose doc just above it.
pub open spec fn attach_one(t: TagView, loose: Seq<LooseDocView>, used: Seq<bool>) -> (TagView, Seq<bool>) {
    if t.kind != Kind::Def || t.doc is Some {
        (t, used)
    } else {
        let i = candidate(loose, used, t.line, loose.len() as int);
        if i < 0 {
            (t, used)
        } else {
            let s = stripped_comment(loose[i].text);
            if s.len() == 0 {
                (t, used)
            } else {
                (TagView { doc: Some(s), doc_line: Some(loose[i].start), ..t }, used.update(i, true))
            }
        }
    }
}

pub open spec fn attach_all(ts: Seq<TagView>, loose: Seq<LooseDocView>) -> (Seq<TagView>, Seq<bool>)
    decreases ts.len(),
{
    if ts.len() == 0 {
        (seq![], Seq::new(loose.len(), |i: int| false))
    } else {
        let (r, used) = attach_all(ts.drop_last(), loose);
        let (t, u) = attach_one(ts.last(), loose, used);
        (r.push(t), u)
    }
}

/// Loose docs ordered (stably) by their last line.
pub open spec fn loose_in_order(ls: Seq<LooseDocView>) -> Seq<LooseDocView> {
    sort_by(index_seq(ls.len()), |i: usize| ls[i as int].end as int).map_values(|i: usize| ls[i as int])
}

/// The tags described by a file's query matches.
pub open spec fn tags_of_matches(ms: Seq<Seq<CaptureView>>) -> Seq<TagView> {
    let (ts, ls) = first_pass(ms);
    attach_all(ts, loose_in_order(ls)).0
}


// ---------------------------------------------------------------------------
// Executable extraction
// ---------------------------------------------------------------------------

pub open spec fn cap_at(mv: Seq<CaptureView>, o: Option<usize>) -> Option<CaptureView> {
    match o {
        Some(i) => Some(mv[i as int]),
        None => None,
    }
}

pub open spec fn caps_at(mv: Seq<CaptureView>, idx: Seq<usize>) -> Seq<CaptureView> {
    idx.map_values(|i: usize| mv[i as int])
}

/// Runs the capture scan over one match, returning positions into `m`.
fn scan_match(m: &Vec<Capture>) -> (r: (Option<usize>, Option<usize>, Option<Kind>, Vec<usize>))
    ensures
        ({
            let mv = match_view(m@);
            let st = scan(mv);
            &&& st.name_cap == cap_at(mv, r.0)
            &&& st.full_cap == cap_at(mv, r.1)
            &&& st.kind == r.2
            &&& st.docs == caps_at(mv, r.3@)
            &&& (r.0 matches Some(i) ==> i < m@.len())
            &&& (r.1 matches Some(i) ==> i < m@.len())
            &&& forall|k: int| 0 <= k < r.3@.len() ==> r.3@[k] < m@.len()
        }),
{
    let ghost mv = match_view(m@);
    let doc = chars_of("doc");
    let name_p = chars_of("name.");
    let def_p = chars_of("definition");
    let ref_p = chars_of("reference");
    let mut name_idx: Option<usize> = None;
    let mut full_idx: Option<usize> = None;
    let mut kind: Option<Kind> = None;
    let mut docs: Vec<usize> = Vec::new();
    let mut j: usize = 0;
    assert(mv.take(0) =~= Seq::<CaptureView>::empty());
    assert(caps_at(mv, docs@) =~= Seq::<CaptureView>::empty());
    while j < m.len()
        invariant
            j <= m.len(),
            mv == match_view(m@),
            doc@ == "doc"@,
            name_p@ == "name."@,
            def_p@ == "definition"@,
            ref_p@ == "reference"@,
            scan(mv.take(j as int)) == (ScanState {
                name_cap: cap_at(mv, name_idx),
                full_cap: cap_at(mv, full_idx),
                kind,
                docs: caps_at(mv, docs@),
            }),
            name_idx matches Some(i) ==> i < j,
            full_idx matches Some(i) ==> i < j,
            forall|k: int| 0 <= k < docs@.len() ==> docs@[k] < j,
        decreases m.len() - j,
    {
        let ghost before_docs = docs@;
        proof {
            assert(mv.take(j + 1).drop_last() =~= mv.take(j as int));
            assert(mv.take(j + 1).last() == mv[j as int]);
        }
        let cname = chars_of(m[j].name.as_str());
        if chars_eq(&cname, &doc) {
            docs.push(j);
            assert(caps_at(mv, docs@) =~= caps_at(mv, before_docs).push(mv[j as int]));
        } else if has_prefix(&cname, &name_p) {
            name_idx = Some(j);
            if contains_chars(&cname, &def_p) {
                kind = Some(Kind::Def);
            } else if contains_chars(&cname, &ref_p) {
                kind = Some(Kind::Ref);
            }
        } else if has_prefix(&cname, &def_p) {
            full_idx = Some(j);
            if kind.is_none() {
                kind = Some(Kind::Def);
            }
        } else if has_prefix(&cname, &ref_p) {
            full_idx = Some(j);
            if kind.is_none() {
                kind = Some(Kind::Ref);
            }
        }
        j = j + 1;
    }
    assert(mv.take(m.len() as int) =~= mv);
    (name_idx, full_idx, kind, docs)
}


/// The inline doc of a definition whose match has doc captures at positions `d`.
fn inline_doc_exec(m: &Vec<Capture>, d: &Vec<usize>) -> (r: (Option<String>, Option<usize>))
    requires
        forall|k: int| 0 <= k < d@.len() ==> d@[k] < m@.len(),
        forall|j: int| 0 <= j < m@.len() ==> (#[trigger] m@[j]).start_row < usize::MAX,
    ensures
        (opt_str_view(r.0), r.1) == inline_doc(caps_at(match_view(m@), d@)),
{
    let ghost mv = match_view(m@);
    let ghost docs = caps_at(mv, d@);
    if d.len() == 0 {
        return (None, None);
    }
    let mut keys: Vec<usize> = Vec::new();
    let mut k: usize = 0;
    while k < d.len()
        invariant
            k <= d.len(),
            mv == match_view(m@),
            docs == caps_at(mv, d@),
            forall|q: int| 0 <= q < d@.len() ==> d@[q] < m@.len(),
            keys@.len() == k,
            forall|q: int| 0 <= q < k ==> keys@[q] == docs[q].start_byte,
        decreases d.len() - k,
    {
        keys.push(m[d[k]].start_byte);
        k = k + 1;
    }
    let order = sort_indices(&keys);
    let ghost n = d@.len();
    let ghost kd = |i: usize| docs[i as int].start_byte as int;
    proof {
        assert forall|y: usize| #![trigger kd(y)] index_seq(n).contains(y) implies (|i: usize| keys@[i as int] as int)(y) == kd(y) by {
            lemma_index_seq_contains(n, y);
        }
        lemma_sort_by_congruent(index_seq(n), |i: usize| keys@[i as int] as int, kd);
    }
    let ghost sorted = order@.map_values(|i: usize| docs[i as int]);
    assert(sorted == docs_in_order(docs));
    let mut texts: Vec<Vec<char>> = Vec::new();
    let mut k: usize = 0;
    while k < order.len()
        invariant
            k <= order.len(),
            order@.len() == d@.len(),
            forall|q: int| 0 <= q < order@.len() ==> order@[q] < d@.len(),
            forall|q: int| 0 <= q < d@.len() ==> d@[q] < m@.len(),
            mv == match_view(m@),
            docs == caps_at(mv, d@),
            sorted == order@.map_values(|i: usize| docs[i as int]),
            seqs_of(texts@) == present_texts(sorted.take(k as int)),
        decreases order.len() - k,
    {
        let c = &m[d[order[k]]];
        assert(sorted[k as int] == c@);
        assert(sorted.take(k + 1).drop_last() =~= sorted.take(k as int));
        let ghost before = texts@;
        match &c.text {
            Some(t) => {
                texts.push(chars_of(t.as_str()));
                assert(seqs_of(texts@) =~= seqs_of(before).push(t@));
            },
            None => {},
        }
        k = k + 1;
    }
    assert(sorted.take(order.len() as int) =~= sorted);
    let nl = chars_of("\n");
    let raw = join_chars(&texts, &nl);
    let st = strip_comment_markers_chars(&raw);
    if st.len() == 0 {
        (None, None)
    } else {
        let first = &m[d[order[0]]];
        assert(sorted[0] == first@);
        (Some(string_of(&st)), Some(first.start_row + 1))
    }
}

/// What one query match contributes (executable form).
pub enum Outcome {
    Nothing,
    Loose(Vec<LooseDoc>),
    Tagged(Tag),
}

pub open spec fn outcome_view(o: Outcome) -> OutcomeView {
    match o {
        Outcome::Nothing => OutcomeView::Nothing,
        Outcome::Loose(l) => OutcomeView::Loose(loose_view(l@)),
        Outcome::Tagged(t) => OutcomeView::Tagged(t@),
    }
}

fn outcome_of(m: &Vec<Capture>) -> (o: Outcome)
    requires
        forall|j: int| 0 <= j < m@.len() ==> (#[trigger] m@[j]).start_row < usize::MAX
            && m@[j].end_row < usize::MAX,
    ensures
        outcome_view(o) == match_outcome(match_view(m@)),
{
    let ghost mv = match_view(m@);
    let (ni, fi, kind, d) = scan_match(m);
    let ghost st = scan(mv);
    match ni {
        None => {
            let ghost docs = caps_at(mv, d@);
            let mut loose: Vec<LooseDoc> = Vec::new();
            let mut k: usize = 0;
            while k < d.len()
                invariant
                    k <= d.len(),
                    mv == match_view(m@),
                    docs == caps_at(mv, d@),
                    forall|q: int| 0 <= q < d@.len() ==> d@[q] < m@.len(),
                    forall|j: int| 0 <= j < m@.len() ==> (#[trigger] m@[j]).start_row < usize::MAX
                        && m@[j].end_row < usize::MAX,
                    loose_view(loose@) == loose_of(docs.take(k as int)),
                decreases d.len() - k,
            {
                let c = &m[d[k]];
                assert(docs[k as int] == c@);
                assert(docs.take(k + 1).drop_last() =~= docs.take(k as int));
                let ghost before = loose@;
                match &c.text {
                    Some(t) => {
                        loose.push(LooseDoc { start: c.start_row + 1, end: c.end_row + 1, text: chars_of(t.as_str()) });
                        assert(loose_view(loose@) =~= loose_view(before).push(loose@.last()@));
                    },
                    None => {},
                }
                k = k + 1;
            }
            assert(docs.take(d.len() as int) =~= docs);
            Outcome::Loose(loose)
        },
        Some(n) => match kind {
            None => Outcome::Nothing,
            Some(kd) => match &m[n].text {
                None => Outcome::Nothing,
                Some(t) => {
                    if t.as_str().is_empty() {
                        Outcome::Nothing
                    } else {
                        let b = match fi {
                            Some(f) => f,
                            None => n,
                        };
                        let (doc, doc_line) = match kd {
                            Kind::Def => inline_doc_exec(m, &d),
                            Kind::Ref => (None, None),
                        };
                        Outcome::Tagged(Tag {
                            name: t.clone(),
                            kind: kd,
                            line: m[n].start_row + 1,
                            end_line: match kd {
                                Kind::Def => m[b].end_row + 1,
                                Kind::Ref => m[n].start_row + 1,
                            },
                            start_byte: m[b].start_byte,
                            end_byte: m[b].end_byte,
                            doc,
                            doc_line,
                        })
                    }
                },
            },
        },
    }
}


fn is_candidate(loose: &Vec<LooseDoc>, order: &Vec<usize>, used: &Vec<bool>, p: usize, line: usize) -> (b: bool)
    requires
        p < order@.len(),
        p < used@.len(),
        order@[p as int] < loose@.len(),
    ensures
        b == (!used@[p as int] && loose@[order@[p as int] as int].end < line && line
            - loose@[order@[p as int] as int].end <= 2),
{
    let d = &loose[order[p]];
    !used[p] && d.end < line && line - d.end <= 2
}

/// Tags for a file whose tag query produced the matches `ms`: one tag per
/// match with a named capture, plus doc comments attached to definitions.
pub fn tags_from_matches(ms: &Vec<Vec<Capture>>) -> (r: Vec<Tag>)
    requires
        rows_fit(matches_view(ms@)),
    ensures
        tags_view(r@) == tags_of_matches(matches_view(ms@)),
{
    let ghost mvs = matches_view(ms@);
    let mut tags: Vec<Tag> = Vec::new();
    let mut loose: Vec<LooseDoc> = Vec::new();
    let mut i: usize = 0;
    assert(mvs.take(0) =~= Seq::<Seq<CaptureView>>::empty());
    assert(tags_view(tags@) =~= Seq::<TagView>::empty());
    assert(loose_view(loose@) =~= Seq::<LooseDocView>::empty());
    while i < ms.len()
        invariant
            i <= ms.len(),
            mvs == matches_view(ms@),
            rows_fit(mvs),
            (tags_view(tags@), loose_view(loose@)) == first_pass(mvs.take(i as int)),
        decreases ms.len() - i,
    {
        proof {
            assert(mvs[i as int] == match_view(ms@[i as int]@));
            assert forall|j: int| 0 <= j < ms@[i as int]@.len() implies (#[trigger] ms@[i as int]@[j]).start_row
                < usize::MAX && ms@[i as int]@[j].end_row < usize::MAX by {
                assert(mvs[i as int][j] == ms@[i as int]@[j]@);
            }
            assert(mvs.take(i + 1).drop_last() =~= mvs.take(i as int));
        }
        let ghost bt = tags@;
        let ghost bl = loose@;
        match outcome_of(&ms[i]) {
            Outcome::Nothing => {},
            Outcome::Loose(l) => {
                let mut l = l;
                let ghost lv = l@;
                loose.append(&mut l);
                assert(loose_view(loose@) =~= loose_view(bl) + loose_view(lv));
            },
            Outcome::Tagged(t) => {
                tags.push(t);
                assert(tags_view(tags@) =~= tags_view(bt).push(t@));
            },
        }
        i = i + 1;
    }
    assert(mvs.take(ms.len() as int) =~= mvs);
    let ghost lv = loose_view(loose@);
    let mut keys: Vec<usize> = Vec::new();
    let mut k: usize = 0;
    while k < loose.len()
        invariant
            k <= loose.len(),
            lv == loose_view(loose@),
            keys@.len() == k,
            forall|q: int| 0 <= q < k ==> keys@[q] == lv[q].end,
        decreases loose.len() - k,
    {
        keys.push(loose[k].end);
        k = k + 1;
    }
    let order = sort_indices(&keys);
    let ghost n = lv.len();
    let ghost ke = |i: usize| lv[i as int].end as int;
    proof {
        assert forall|y: usize| #![trigger ke(y)] index_seq(n).contains(y) implies (|i: usize| keys@[i as int] as int)(y) == ke(y) by {
            lemma_index_seq_contains(n, y);
        }
        lemma_sort_by_congruent(index_seq(n), |i: usize| keys@[i as int] as int, ke);
    }
    let ghost sorted = order@.map_values(|i: usize| lv[i as int]);
    assert(sorted == loose_in_order(lv));
    let mut used: Vec<bool> = Vec::new();
    let mut k: usize = 0;
    while k < loose.len()
        invariant
            k <= loose.len(),
            used@ == Seq::new(k as nat, |q: int| false),
        decreases loose.len() - k,
    {
        used.push(false);
        k = k + 1;
        assert(used@ =~= Seq::new(k as nat, |q: int| false));
    }
    let ghost orig = tags_view(tags@);
    let ghost first_tags = first_pass(mvs).0;
    assert(orig == first_tags);
    let mut i: usize = 0;
    assert(orig.take(0) =~= Seq::<TagView>::empty());
    assert(tags_view(tags@).take(0) =~= Seq::<TagView>::empty());
    while i < tags.len()
        invariant
            i <= tags@.len() == orig.len(),
            lv == loose_view(loose@),
            n == lv.len(),
            order@.len() == n,
            forall|q: int| 0 <= q < n ==> order@[q] < n,
            sorted == order@.map_values(|i: usize| lv[i as int]),
            used@.len() == n,
            (tags_view(tags@).take(i as int), used@) == attach_all(orig.take(i as int), sorted),
            forall|q: int| i <= q < orig.len() ==> tags@[q]@ == orig[q],
        decreases orig.len() - i,
    {
        let ghost bu = used@;
        let ghost bt = tags_view(tags@);
        proof {
            assert(orig.take(i + 1).drop_last() =~= orig.take(i as int));
            assert(orig.take(i + 1).last() == orig[i as int]);
        }
        let line = tags[i].line;
        if tags[i].kind == Kind::Def && tags[i].doc.is_none() {
            let mut k: usize = loose.len();
            while k > 0 && !is_candidate(&loose, &order, &used, k - 1, line)
                invariant
                    k <= n,
                    lv == loose_view(loose@),
                    n == lv.len(),
                    order@.len() == n,
                    used@.len() == n,
                    forall|q: int| 0 <= q < n ==> order@[q] < n,
                    sorted == order@.map_values(|i: usize| lv[i as int]),
                    candidate(sorted, used@, line, n as int) == candidate(sorted, used@, line, k as int),
                decreases k,
            {
                assert(sorted[k - 1] == lv[order@[k - 1] as int]);
                k = k - 1;
            }
            if k > 0 {
                let p = k - 1;
                assert(sorted[p as int] == lv[order@[p as int] as int]);
                assert(candidate(sorted, used@, line, n as int) == p);
                let st = strip_comment_markers_chars(&loose[order[p]].text);
                if st.len() > 0 {
                    let start = loose[order[p]].start;
                    tags[i].doc = Some(string_of(&st));
                    tags[i].doc_line = Some(start);
                    used[p] = true;
                }
            } else {
                assert(candidate(sorted, used@, line, n as int) == -1);
            }
        }
        proof {
            assert(tags_view(tags@).take(i + 1) =~= tags_view(tags@).take(i as int).push(tags@[i as int]@));
            assert(tags_view(tags@).take(i as int) =~= bt.take(i as int));
        }
        i = i + 1;
    }
    assert(tags_view(tags@).take(tags@.len() as int) =~= tags_view(tags@));
    assert(orig.take(orig.len() as int) =~= orig);
    tags
}


fn rows_fit_exec(ms: &Vec<Vec<Capture>>) -> (b: bool)
    ensures
        b == rows_fit(matches_view(ms@)),
{
    let ghost mvs = matches_view(ms@);
    let mut i: usize = 0;
    while i < ms.len()
        invariant
            i <= ms.len(),
            mvs == matches_view(ms@),
            forall|a: int, j: int|
                0 <= a < i && 0 <= j < mvs[a].len() ==> (#[trigger] mvs[a][j]).start_row < usize::MAX
                    && mvs[a][j].end_row < usize::MAX,
        decreases ms.len() - i,
    {
        let m = &ms[i];
        assert(mvs[i as int] == match_view(m@));
        let mut j: usize = 0;
        while j < m.len()
            invariant
                j <= m@.len(),
                i < ms@.len(),
                m == &ms@[i as int],
                mvs == matches_view(ms@),
                mvs[i as int] == match_view(m@),
                forall|a: int, q: int|
                    0 <= a < i && 0 <= q < mvs[a].len() ==> (#[trigger] mvs[a][q]).start_row < usize::MAX
                        && mvs[a][q].end_row < usize::MAX,
                forall|q: int| 0 <= q < j ==> (#[trigger] mvs[i as int][q]).start_row < usize::MAX
                    && mvs[i as int][q].end_row < usize::MAX,
            decreases m@.len() - j,
        {
            assert(mvs[i as int][j as int] == m@[j as int]@);
            if m[j].start_row == usize::MAX || m[j].end_row == usize::MAX {
                return false;
            }
            j = j + 1;
        }
        i = i + 1;
    }
    true
}

/// The text of the bytes `start..end` of `source`, when that range is valid
/// UTF-8 (both ends on character boundaries).
pub open spec fn capture_text(source: Seq<char>, start: usize, end: usize) -> Option<Seq<char>> {
    if start <= end && is_boundary(source, start as nat) && is_boundary(source, end as nat) {
        Some(source.subrange(char_pos(source, start as nat), char_pos(source, end as nat)))
    } else {
        None
    }
}

/// Every capture names one of the capture names and covers a byte range of
/// `source` (start before end, end within the text).
pub open spec fn captures_fit(names: Seq<Seq<char>>, raw: Seq<Seq<RawCapture>>, source: Seq<char>) -> bool {
    forall|i: int, j: int|
        0 <= i < raw.len() && 0 <= j < raw[i].len() ==> capture_fits(names, #[trigger] raw[i][j], source)
}

pub open spec fn capture_fits(names: Seq<Seq<char>>, c: RawCapture, source: Seq<char>) -> bool {
    &&& c.index < names.len()
    &&& c.start_byte <= c.end_byte
    &&& c.end_byte <= byte_offset(source, source.len() as int)
}

pub open spec fn resolve_capture(names: Seq<Seq<char>>, c: RawCapture, source: Seq<char>) -> CaptureView {
    CaptureView {
        name: names[c.index as int],
        start_byte: c.start_byte,
        end_byte: c.end_byte,
        start_row: c.start_row,
        end_row: c.end_row,
        text: capture_text(source, c.start_byte, c.end_byte),
    }
}

/// The captures with their names and texts.
pub open spec fn resolve_captures(names: Seq<Seq<char>>, raw: Seq<Seq<RawCapture>>, source: Seq<char>) -> Seq<Seq<CaptureView>> {
    raw.map_values(|m: Seq<RawCapture>| m.map_values(|c: RawCapture| resolve_capture(names, c, source)))
}

/// The tags of `source` for a language and tag query, or `None` when the
/// grammar, parse or query is refused (or the query's results are malformed:
/// a capture index outside the capture names, a byte range outside the text,
/// or a row without a successor).
pub open spec fn extracted_tags(lang: LangId, query: Seq<char>, source: Seq<char>) -> Option<Seq<TagView>> {
    match (tag_query_names(lang, query), tag_query_raw(lang, query, source)) {
        (Some(names), Some(raw)) => if captures_fit(names, raw, source) && rows_fit(resolve_captures(names, raw, source)) {
            Some(tags_of_matches(resolve_captures(names, raw, source)))
        } else {
            None
        },
        _ => None,
    }
}

/// The shape every extracted tag has: a non-empty name; a 1-based line; a
/// doc exactly when a doc line; a reference spans one line and has no doc; a
/// doc, where there is one, is a non-empty single line.
pub open spec fn well_shaped(t: TagView) -> bool {
    &&& t.name.len() > 0
    &&& t.line >= 1
    &&& (t.doc is Some) == (t.doc_line is Some)
    &&& t.kind == Kind::Ref ==> t.doc is None && t.end_line == t.line
    &&& t.doc matches Some(d) ==> d.len() > 0 && lacks(d, '\n')
}

pub open spec fn all_well_shaped(ts: Seq<TagView>) -> bool {
    forall|k: int| 0 <= k < ts.len() ==> well_shaped(#[trigger] ts[k])
}

/// The tag's byte range runs forward and ends within a text of `total` bytes.
pub open spec fn bytes_within(t: TagView, total: nat) -> bool {
    t.start_byte <= t.end_byte && t.end_byte <= total
}

pub open spec fn all_within(ts: Seq<TagView>, total: nat) -> bool {
    forall|k: int| 0 <= k < ts.len() ==> bytes_within(#[trigger] ts[k], total)
}

/// Every capture's byte range runs forward and ends within `total` bytes.
pub open spec fn caps_within(ms: Seq<Seq<CaptureView>>, total: nat) -> bool {
    forall|i: int, j: int|
        0 <= i < ms.len() && 0 <= j < ms[i].len() ==> (#[trigger] ms[i][j]).start_byte <= ms[i][j].end_byte
            && ms[i][j].end_byte <= total
}

pub open spec fn cap_within(c: CaptureView, total: nat) -> bool {
    c.start_byte <= c.end_byte && c.end_byte <= total
}

proof fn lemma_scan_within(m: Seq<CaptureView>, total: nat)
    requires
        forall|j: int| 0 <= j < m.len() ==> cap_within(#[trigger] m[j], total),
    ensures
        scan(m).name_cap matches Some(c) ==> cap_within(c, total),
        scan(m).full_cap matches Some(c) ==> cap_within(c, total),
    decreases m.len(),
{
    if m.len() > 0 {
        let u = m.drop_last();
        assert forall|j: int| 0 <= j < u.len() implies cap_within(#[trigger] u[j], total) by {
            assert(u[j] == m[j]);
        }
        lemma_scan_within(u, total);
        assert(cap_within(m[m.len() - 1], total));
    }
}

proof fn lemma_first_pass_shaped(ms: Seq<Seq<CaptureView>>, total: nat)
    requires
        rows_fit(ms),
        caps_within(ms, total),
    ensures
        all_well_shaped(first_pass(ms).0),
        all_within(first_pass(ms).0, total),
    decreases ms.len(),
{
    if ms.len() > 0 {
        let u = ms.drop_last();
        assert forall|i: int, j: int| 0 <= i < u.len() && 0 <= j < u[i].len() implies (#[trigger] u[i][j]).start_row
            < usize::MAX && u[i][j].end_row < usize::MAX by {
            assert(u[i] == ms[i]);
        }
        assert forall|i: int, j: int| 0 <= i < u.len() && 0 <= j < u[i].len() implies (#[trigger] u[i][j]).start_byte
            <= u[i][j].end_byte && u[i][j].end_byte <= total by {
            assert(u[i] == ms[i]);
        }
        lemma_first_pass_shaped(u, total);
        let (ts, ls) = first_pass(u);
        let m = ms.last();
        match match_outcome(m) {
            OutcomeView::Tagged(t) => {
                let st = scan(m);
                if t.kind == Kind::Def && st.docs.len() > 0 {
                    let sorted = docs_in_order(st.docs);
                    stripped_comment_is_one_line(join(present_texts(sorted), "\n"@));
                }
                assert forall|j: int| 0 <= j < m.len() implies cap_within(#[trigger] m[j], total) by {
                    assert(ms[ms.len() - 1][j] == m[j]);
                }
                lemma_scan_within(m, total);
                lemma_scan_rows(m);
                assert(well_shaped(t));
                assert(bytes_within(t, total));
                assert forall|k: int| 0 <= k < ts.push(t).len() implies well_shaped(#[trigger] ts.push(t)[k])
                    && bytes_within(ts.push(t)[k], total) by {
                    if k < ts.len() {
                        assert(ts.push(t)[k] == ts[k]);
                    }
                }
            },
            _ => {},
        }
    }
}

proof fn lemma_scan_rows(m: Seq<CaptureView>)
    requires
        forall|j: int| 0 <= j < m.len() ==> (#[trigger] m[j]).start_row < usize::MAX,
    ensures
        scan(m).name_cap matches Some(c) ==> c.start_row < usize::MAX,
    decreases m.len(),
{
    if m.len() > 0 {
        let u = m.drop_last();
        assert forall|j: int| 0 <= j < u.len() implies (#[trigger] u[j]).start_row < usize::MAX by {
            assert(u[j] == m[j]);
        }
        lemma_scan_rows(u);
        assert(m[m.len() - 1].start_row < usize::MAX);
    }
}

proof fn lemma_attach_all_shaped(ts: Seq<TagView>, loose: Seq<LooseDocView>, total: nat)
    requires
        all_well_shaped(ts),
        all_within(ts, total),
    ensures
        all_well_shaped(attach_all(ts, loose).0),
        all_within(attach_all(ts, loose).0, total),
        attach_all(ts, loose).0.len() == ts.len(),
        attach_all(ts, loose).1.len() == loose.len(),
    decreases ts.len(),
{
    if ts.len() > 0 {
        let init = ts.drop_last();
        assert forall|k: int| 0 <= k < init.len() implies well_shaped(#[trigger] init[k]) && bytes_within(init[k], total) by {
            assert(init[k] == ts[k]);
        }
        lemma_attach_all_shaped(init, loose, total);
        let (r, used) = attach_all(init, loose);
        let t = ts.last();
        assert(well_shaped(ts[ts.len() - 1]) && bytes_within(ts[ts.len() - 1], total));
        let (t2, u) = attach_one(t, loose, used);
        if !(t.kind != Kind::Def || t.doc is Some) {
            let i = candidate(loose, used, t.line, loose.len() as int);
            if i >= 0 {
                lemma_candidate_range(loose, used, t.line, loose.len() as int);
                stripped_comment_is_one_line(loose[i].text);
            }
        }
        assert(well_shaped(t2) && bytes_within(t2, total));
        assert forall|k: int| 0 <= k < r.push(t2).len() implies well_shaped(#[trigger] r.push(t2)[k]) && bytes_within(
            r.push(t2)[k],
            total,
        ) by {
            if k < r.len() {
                assert(r.push(t2)[k] == r[k]);
            }
        }
    }
}

proof fn lemma_candidate_range(loose: Seq<LooseDocView>, used: Seq<bool>, line: usize, k: int)
    requires
        0 <= k,
    ensures
        candidate(loose, used, line, k) < k,
        candidate(loose, used, line, k) >= -1,
    decreases k,
{
    if k > 0 {
        lemma_candidate_range(loose, used, line, k - 1);
    }
}

/// Every tag drawn from a file's query matches is well shaped, and its byte
/// range lies within the captures' text.
pub proof fn tags_of_matches_well_shaped(ms: Seq<Seq<CaptureView>>, total: nat)
    requires
        rows_fit(ms),
        caps_within(ms, total),
    ensures
        all_well_shaped(tags_of_matches(ms)),
        all_within(tags_of_matches(ms), total),
{
    lemma_first_pass_shaped(ms, total);
    let (ts, ls) = first_pass(ms);
    lemma_attach_all_shaped(ts, loose_in_order(ls), total);
}

/// Every tag extracted from a source text is well shaped, and its byte range
/// runs forward and ends within the text.
pub proof fn extracted_tags_well_shaped(lang: LangId, query: Seq<char>, source: Seq<char>)
    ensures
        extracted_tags(lang, query, source) matches Some(ts) ==> all_well_shaped(ts) && all_within(
            ts,
            byte_offset(source, source.len() as int),
        ),
{
    if let (Some(names), Some(raw)) = (tag_query_names(lang, query), tag_query_raw(lang, query, source)) {
        if captures_fit(names, raw, source) && rows_fit(resolve_captures(names, raw, source)) {
            let ms = resolve_captures(names, raw, source);
            let total = byte_offset(source, source.len() as int);
            assert forall|i: int, j: int| 0 <= i < ms.len() && 0 <= j < ms[i].len() implies (#[trigger] ms[i][j]).start_byte
                <= ms[i][j].end_byte && ms[i][j].end_byte <= total by {
                assert(ms[i][j] == resolve_capture(names, raw[i][j], source));
                assert(capture_fits(names, raw[i][j], source));
            }
            tags_of_matches_well_shaped(ms, total);
        }
    }
}

/// Every tag `extract` gives for a file is well shaped, and its byte range
/// runs forward and ends within the file's text.
pub proof fn file_tags_well_shaped(path: Seq<char>, source: Seq<char>, queries: Seq<(String, String)>)
    ensures
        all_well_shaped(tags_of_file(path, source, queries)),
        all_within(tags_of_file(path, source, queries), byte_offset(source, source.len() as int)),
{
    if let Some(id) = language_of_path(path) {
        extracted_tags_well_shaped(id, query_lookup(queries, query_file(id)).unwrap(), source);
    }
}

fn capture_text_exec(src: &Vec<char>, offs: &Vec<u128>, start: usize, end: usize) -> (r: Option<String>)
    requires
        offs@.len() == src@.len() + 1,
        forall|k: int| 0 <= k <= src@.len() ==> #[trigger] offs@[k] == byte_offset(src@, k),
    ensures
        opt_str_view(r) == capture_text(src@, start, end),
{
    if start > end {
        return None;
    }
    let cs = find_boundary(Ghost(src@), offs, start as u128);
    let ce = find_boundary(Ghost(src@), offs, end as u128);
    match (cs, ce) {
        (Some(a), Some(b)) => {
            proof {
                if b < a {
                    lemma_offsets_increase(src@, b as int, a as int);
                }
            }
            Some(string_of(&slice_chars(src, a, b)))
        },
        _ => None,
    }
}

fn resolve_exec(names: &Vec<String>, raw: &Vec<Vec<RawCapture>>, source: &str) -> (r: Option<Vec<Vec<Capture>>>)
    ensures
        ({
            let nv = names@.map_values(|s: String| s@);
            let rv = raw@.map_values(|m: Vec<RawCapture>| m@);
            match r {
                Some(ms) => captures_fit(nv, rv, source@) && matches_view(ms@) == resolve_captures(nv, rv, source@),
                None => !captures_fit(nv, rv, source@),
            }
        }),
{
    let ghost nv = names@.map_values(|s: String| s@);
    let ghost rv = raw@.map_values(|m: Vec<RawCapture>| m@);
    let src = chars_of(source);
    let offs = char_offsets(&src);
    let mut out: Vec<Vec<Capture>> = Vec::new();
    let mut i: usize = 0;
    while i < raw.len()
        invariant
            i <= raw@.len(),
            nv == names@.map_values(|s: String| s@),
            rv == raw@.map_values(|m: Vec<RawCapture>| m@),
            src@ == source@,
            offs@.len() == src@.len() + 1,
            forall|k: int| 0 <= k <= src@.len() ==> #[trigger] offs@[k] == byte_offset(src@, k),
            forall|a: int, j: int| 0 <= a < i && 0 <= j < rv[a].len() ==> capture_fits(nv, #[trigger] rv[a][j], source@),
            matches_view(out@) == resolve_captures(nv, rv.take(i as int), source@),
        decreases raw@.len() - i,
    {
        let m = &raw[i];
        assert(rv[i as int] == m@);
        let mut caps: Vec<Capture> = Vec::new();
        let mut j: usize = 0;
        while j < m.len()
            invariant
                j <= m@.len(),
                i < raw@.len(),
                m == &raw@[i as int],
                rv[i as int] == m@,
                rv == raw@.map_values(|m: Vec<RawCapture>| m@),
                nv == names@.map_values(|s: String| s@),
                src@ == source@,
                offs@.len() == src@.len() + 1,
                forall|k: int| 0 <= k <= src@.len() ==> #[trigger] offs@[k] == byte_offset(src@, k),
                forall|q: int| 0 <= q < j ==> capture_fits(nv, #[trigger] m@[q], source@),
                match_view(caps@) == m@.take(j as int).map_values(|c: RawCapture| resolve_capture(nv, c, source@)),
            decreases m@.len() - j,
        {
            let c = m[j];
            if c.index >= names.len() || c.start_byte > c.end_byte || c.end_byte as u128 > offs[src.len()] {
                proof {
                    assert(nv.len() == names@.len());
                    assert(rv[i as int][j as int] == c);
                    assert(!capture_fits(nv, rv[i as int][j as int], source@));
                    assert(!captures_fit(nv, rv, source@));
                }
                return None;
            }
            let text = capture_text_exec(&src, &offs, c.start_byte, c.end_byte);
            let ghost before = caps@;
            caps.push(Capture {
                name: names[c.index].clone(),
                start_byte: c.start_byte,
                end_byte: c.end_byte,
                start_row: c.start_row,
                end_row: c.end_row,
                text,
            });
            proof {
                assert(nv[c.index as int] == names@[c.index as int]@);
                assert(match_view(caps@) =~= match_view(before).push(resolve_capture(nv, c, source@)));
                assert(m@.take(j + 1).map_values(|c: RawCapture| resolve_capture(nv, c, source@)) =~= m@.take(j as int).map_values(
                    |c: RawCapture| resolve_capture(nv, c, source@),
                ).push(resolve_capture(nv, c, source@)));
            }
            j = j + 1;
        }
        assert(m@.take(m@.len() as int) =~= m@);
        let ghost before = out@;
        out.push(caps);
        proof {
            assert(matches_view(out@) =~= matches_view(before).push(match_view(caps@)));
            assert(resolve_captures(nv, rv.take(i + 1), source@) =~= resolve_captures(nv, rv.take(i as int), source@).push(
                rv[i as int].map_values(|c: RawCapture| resolve_capture(nv, c, source@)),
            ));
        }
        i = i + 1;
    }
    assert(rv.take(raw@.len() as int) =~= rv);
    Some(out)
}

/// The tags described by a tag query's results on `source`: the query's
/// capture names and, per match, its captures.  `None` when a capture index
/// lies outside the names, a capture's byte range lies outside `source`, or
/// a row has no successor.
pub fn tags_from_query_results(names: &Vec<String>, raw: &Vec<Vec<RawCapture>>, source: &str) -> (r: Option<Vec<Tag>>)
    ensures
        ({
            let nv = names@.map_values(|s: String| s@);
            let rv = raw@.map_values(|m: Vec<RawCapture>| m@);
            match r {
                Some(t) => captures_fit(nv, rv, source@) && rows_fit(resolve_captures(nv, rv, source@)) && tags_view(t@)
                    == tags_of_matches(resolve_captures(nv, rv, source@)),
                None => !(captures_fit(nv, rv, source@) && rows_fit(resolve_captures(nv, rv, source@))),
            }
        }),
{
    match resolve_exec(names, raw, source) {
        None => None,
        Some(ms) => {
            if rows_fit_exec(&ms) {
                Some(tags_from_matches(&ms))
            } else {
                None
            }
        },
    }
}

/// Parse `source` with the language's grammar, run its tag query and build
/// the tags (see `extracted_tags`).
pub fn extract_with(lang: &Lang, source: &str) -> (r: Option<Vec<Tag>>)
    ensures
        match extracted_tags(lang.lang_id(), lang.query_text(), source@) {
            None => r is None,
            Some(ts) => r matches Some(t) && tags_view(t@) == ts,
        },
{
    proof {
        use_type_invariant(lang);
    }
    let names = match query_capture_names(lang) {
        Some(n) => n,
        None => return None,
    };
    let raw = match run_tag_query(lang, source) {
        Some(r) => r,
        None => return None,
    };
    tags_from_query_results(&names, &raw, source)
}

/// The tags of the file at `path` with text `source`: none for an
/// unsupported language or when the parse or query is refused.
pub open spec fn tags_of_file(path: Seq<char>, source: Seq<char>, queries: Seq<(String, String)>) -> Seq<TagView> {
    match language_of_path(path) {
        None => seq![],
        Some(id) => match extracted_tags(id, query_lookup(queries, query_file(id)).unwrap(), source) {
            Some(ts) => ts,
            None => seq![],
        },
    }
}

/// Parse `source` for `path` and return its tags. Returns empty for
/// unsupported languages or on parse/query failure.
pub fn extract(path: &str, source: &str, queries: &TagQueries) -> (r: Vec<Tag>)
    requires
        has_all_queries(queries.files@),
    ensures
        tags_view(r@) == tags_of_file(path@, source@, queries.files@),
{
    match detect(path, queries) {
        None => Vec::new(),
        Some(lang) => match extract_with(&lang, source) {
            Some(tags) => tags,
            None => Vec::new(),
        },
    }
}

// ---------------------------------------------------------------------------
// Tag listing
// ---------------------------------------------------------------------------

/// The short name of a kind in the tag listing.
pub open spec fn kind_label(k: Kind) -> Seq<char> {
    match k {
        Kind::Def => "def"@,
        Kind::Ref => "ref"@,
    }
}

/// One line of the tag listing: two spaces, the kind left-aligned in four
/// columns, the line right-aligned in four, `-`, the end line left-aligned in
/// four, a space and the name.
pub open spec fn listing_line_of(t: TagView) -> Seq<char> {
    "  "@ + pad_right(kind_label(t.kind), 4) + " "@ + pad_left(decimal(t.line as nat), 4) + "-"@ + pad_right(
        decimal(t.end_line as nat),
        4,
    ) + " "@ + t.name
}

/// The tag listing's line for `t` (without the line feed).
pub fn listing_line(t: &Tag) -> (r: String)
    ensures
        r@ == listing_line_of(t@),
{
    let mut out = chars_of("  ");
    let label = match t.kind {
        Kind::Def => chars_of("def"),
        Kind::Ref => chars_of("ref"),
    };
    extend_chars(&mut out, &pad_right_chars(&label, 4));
    extend_chars(&mut out, &chars_of(" "));
    extend_chars(&mut out, &pad_left_chars(&decimal_chars(t.line), 4));
    extend_chars(&mut out, &chars_of("-"));
    extend_chars(&mut out, &pad_right_chars(&decimal_chars(t.end_line), 4));
    extend_chars(&mut out, &chars_of(" "));
    extend_chars(&mut out, &chars_of(t.name.as_str()));
    string_of(&out)
}

/// Number of tags of kind `k`.
pub open spec fn count_kind(ts: Seq<TagView>, k: Kind) -> nat
    decreases ts.len(),
{
    if ts.len() == 0 {
        0
    } else {
        count_kind(ts.drop_last(), k) + if ts.last().kind == k { 1nat } else { 0nat }
    }
}

proof fn lemma_count_kind_bound(ts: Seq<TagView>, k: Kind)
    ensures
        count_kind(ts, k) <= ts.len(),
    decreases ts.len(),
{
    if ts.len() > 0 {
        lemma_count_kind_bound(ts.drop_last(), k);
    }
}

/// (number of definitions, number of references) among `tags`.
pub fn kind_counts(tags: &Vec<Tag>) -> (r: (usize, usize))
    ensures
        r.0 == count_kind(tags_view(tags@), Kind::Def),
        r.1 == count_kind(tags_view(tags@), Kind::Ref),
{
    let ghost tv = tags_view(tags@);
    let mut defs: usize = 0;
    let mut refs: usize = 0;
    let mut i: usize = 0;
    while i < tags.len()
        invariant
            i <= tags@.len(),
            tv == tags_view(tags@),
            defs == count_kind(tv.take(i as int), Kind::Def),
            refs == count_kind(tv.take(i as int), Kind::Ref),
        decreases tags@.len() - i,
    {
        assert(tv.take(i + 1).drop_last() =~= tv.take(i as int));
        assert(tv.take(i + 1).last() == tags@[i as int]@);
        proof {
            lemma_count_kind_bound(tv.take(i as int), Kind::Def);
            lemma_count_kind_bound(tv.take(i as int), Kind::Ref);
        }
        match tags[i].kind {
            Kind::Def => defs = defs + 1,
            Kind::Ref => refs = refs + 1,
        }
        i = i + 1;
    }
    assert(tv.take(tags@.len() as int) =~= tv);
    (defs, refs)
}

} // verus!
