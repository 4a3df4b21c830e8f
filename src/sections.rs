//! Assembly of styled words into lines and of lines into sections.
use vstd::prelude::*;
use vstd::string::{StrSliceExecFns, StringExecFns};
use crate::text::{split_on, split_spec, strings_view, style_word, style_word_spec, StyledWord, WordModel};

verus! {

/// A colour as 8-bit red, green and blue components; each stands for its value
/// divided by 255.
#[derive(Clone, Copy, PartialEq, Eq, Structural, Debug)]
pub struct Rgb {
    pub r: u8,
    pub g: u8,
    pub b: u8,
}

pub open spec fn black() -> Rgb {
    Rgb { r: 0, g: 0, b: 0 }
}

/// The colour of a section header: one for each recognised label, black otherwise.
pub open spec fn label_color_spec(label: Seq<char>) -> Rgb {
    if label == "fix"@ {
        Rgb { r: 125, g: 223, b: 100 }
    } else if label == "new"@ {
        Rgb { r: 125, g: 100, b: 223 }
    } else if label == "bug"@ {
        Rgb { r: 223, g: 100, b: 125 }
    } else {
        black()
    }
}

/// Whether two strings hold the same characters.
pub fn same_text(a: &str, b: &str) -> (r: bool)
    ensures
        r == (a@ == b@),
{
    let n = a.unicode_len();
    let m = b.unicode_len();
    if n != m {
        return false;
    }
    let mut i: usize = 0;
    while i < n
        invariant
            n == a@.len(),
            n == b@.len(),
            i <= n,
            a@.take(i as int) == b@.take(i as int),
        decreases n - i,
    {
        if a.get_char(i) != b.get_char(i) {
            assert(a@[i as int] != b@[i as int]);
            return false;
        }
        assert(a@.take(i + 1) =~= a@.take(i as int).push(a@[i as int]));
        assert(b@.take(i + 1) =~= b@.take(i as int).push(b@[i as int]));
        i = i + 1;
    }
    assert(a@ =~= a@.take(n as int));
    assert(b@ =~= b@.take(n as int));
    true
}

/// The colour of a section with the given header label.
pub fn label_color(label: &str) -> (r: Rgb)
    ensures
        r == label_color_spec(label@),
{
    proof {
        reveal_strlit("fix");
        reveal_strlit("new");
        reveal_strlit("bug");
    }
    if same_text(label, "fix") {
        Rgb { r: 125, g: 223, b: 100 }
    } else if same_text(label, "new") {
        Rgb { r: 125, g: 100, b: 223 }
    } else if same_text(label, "bug") {
        Rgb { r: 223, g: 100, b: 125 }
    } else {
        Rgb { r: 0, g: 0, b: 0 }
    }
}

/// One line of a section: its words in reading order.
pub struct TextLine {
    pub words: Vec<StyledWord>,
}

pub open spec fn words_view(v: Seq<StyledWord>) -> Seq<WordModel> {
    v.map_values(|w: StyledWord| w@)
}

impl View for TextLine {
    type V = Seq<WordModel>;

    open spec fn view(&self) -> Seq<WordModel> {
        words_view(self.words@)
    }
}

/// A section: a header label, its colour and its lines.
pub struct Section {
    pub header: String,
    pub color: Rgb,
    pub lines: Vec<TextLine>,
}

/// Mathematical model of a section.
pub struct SectionModel {
    pub header: Seq<char>,
    pub color: Rgb,
    pub lines: Seq<Seq<WordModel>>,
}

pub open spec fn lines_view(v: Seq<TextLine>) -> Seq<Seq<WordModel>> {
    v.map_values(|l: TextLine| l@)
}

impl View for Section {
    type V = SectionModel;

    open spec fn view(&self) -> SectionModel {
        SectionModel { header: self.header@, color: self.color, lines: lines_view(self.lines@) }
    }
}

pub open spec fn sections_view(v: Seq<Section>) -> Seq<SectionModel> {
    v.map_values(|s: Section| s@)
}

/// The assembler's state between two words: the closed sections, the open one,
/// the tag word that opened it, and the words of the current line so far.
pub struct ParseState {
    pub done: Seq<SectionModel>,
    pub open: SectionModel,
    pub last_tag: Seq<char>,
    pub line: Seq<WordModel>,
}

pub open spec fn initial_state() -> ParseState {
    ParseState {
        done: Seq::empty(),
        open: SectionModel { header: Seq::empty(), color: black(), lines: Seq::empty() },
        last_tag: Seq::empty(),
        line: Seq::empty(),
    }
}

pub open spec fn is_tag(w: Seq<char>) -> bool {
    w.len() > 0 && w[0] == '@'
}

/// One word. A tag that differs from the last one opens a new section and closes
/// the open one, except for the first tag of a log that begins with it on its
/// first line: that section replaces the empty one open at the start.
/// Any other word is styled and added to the current line.
pub open spec fn word_step(st: ParseState, w: Seq<char>, first_line: bool) -> ParseState {
    if is_tag(w) {
        if w != st.last_tag {
            ParseState {
                done: if first_line && st.last_tag.len() == 0 {
                    st.done
                } else {
                    st.done.push(st.open)
                },
                open: SectionModel {
                    header: w.drop_first(),
                    color: label_color_spec(w.drop_first()),
                    lines: Seq::empty(),
                },
                last_tag: w,
                line: st.line,
            }
        } else {
            st
        }
    } else {
        ParseState { line: st.line.push(style_word_spec(w)), ..st }
    }
}

pub open spec fn words_fold(st: ParseState, ws: Seq<Seq<char>>, first_line: bool) -> ParseState
    decreases ws.len(),
{
    if ws.len() == 0 {
        st
    } else {
        word_step(words_fold(st, ws.drop_last(), first_line), ws.last(), first_line)
    }
}

/// One physical line: its words in turn, then the line goes to the open section.
pub open spec fn line_step(st: ParseState, line: Seq<char>, first_line: bool) -> ParseState {
    let s = words_fold(st, split_spec(line, ' '), first_line);
    ParseState {
        open: SectionModel { lines: s.open.lines.push(s.line), ..s.open },
        line: Seq::empty(),
        ..s
    }
}

pub open spec fn lines_fold(ls: Seq<Seq<char>>) -> ParseState
    decreases ls.len(),
{
    if ls.len() == 0 {
        initial_state()
    } else {
        line_step(lines_fold(ls.drop_last()), ls.last(), ls.len() == 1)
    }
}

/// The sections of a log: those closed along the way, then the one left open.
pub open spec fn parse_spec(text: Seq<char>) -> Seq<SectionModel> {
    let f = lines_fold(split_spec(text, '\n'));
    f.done.push(f.open)
}

/// Parses a log into its sections.
pub fn parse_logs(contents: &str) -> (r: Vec<Section>)
    ensures
        sections_view(r@) == parse_spec(contents@),
{
    let lines = split_on(contents, '\n');
    let ghost ls = split_spec(contents@, '\n');
    let mut done: Vec<Section> = Vec::new();
    let mut open = Section { header: String::new(), color: Rgb { r: 0, g: 0, b: 0 }, lines: Vec::new() };
    let mut last_tag = String::new();
    let mut li: usize = 0;
    assert(sections_view(done@) =~= Seq::<SectionModel>::empty());
    assert(lines_view(open.lines@) =~= Seq::<Seq<WordModel>>::empty());
    assert(ls.take(0) =~= Seq::<Seq<char>>::empty());
    while li < lines.len()
        invariant
            strings_view(lines@) == ls,
            li <= lines.len(),
            lines_fold(ls.take(li as int)) == (ParseState {
                done: sections_view(done@),
                open: open@,
                last_tag: last_tag@,
                line: Seq::empty(),
            }),
        decreases lines.len() - li,
    {
        let first = li == 0;
        let words = split_on(lines[li].as_str(), ' ');
        let ghost ws = split_spec(ls[li as int], ' ');
        let ghost st0 = lines_fold(ls.take(li as int));
        let mut line: Vec<StyledWord> = Vec::new();
        let mut wi: usize = 0;
        assert(ws.take(0) =~= Seq::<Seq<char>>::empty());
        assert(words_view(line@) =~= Seq::<WordModel>::empty());
        while wi < words.len()
            invariant
                strings_view(words@) == ws,
                wi <= words.len(),
                words_fold(st0, ws.take(wi as int), first) == (ParseState {
                    done: sections_view(done@),
                    open: open@,
                    last_tag: last_tag@,
                    line: words_view(line@),
                }),
            decreases words.len() - wi,
        {
            let w = words[wi].as_str();
            assert(ws.take(wi + 1).drop_last() =~= ws.take(wi as int));
            assert(ws[wi as int] == w@);
            let n = w.unicode_len();
            if n > 0 && w.get_char(0) == '@' {
                if !same_text(w, last_tag.as_str()) {
                    let label = String::from_str(w.substring_char(1, n));
                    assert(label@ =~= w@.drop_first());
                    let color = label_color(label.as_str());
                    let next = Section { header: label, color, lines: Vec::new() };
                    assert(lines_view(next.lines@) =~= Seq::<Seq<WordModel>>::empty());
                    if !first || last_tag.unicode_len() > 0 {
                        let ghost before = sections_view(done@);
                        done.push(open);
                        assert(sections_view(done@) =~= before.push(open@));
                    }
                    open = next;
                    last_tag = String::from_str(w);
                }
            } else {
                let ghost before = words_view(line@);
                line.push(style_word(w));
                assert(words_view(line@) =~= before.push(style_word_spec(w@)));
            }
            wi = wi + 1;
        }
        assert(ws.take(words.len() as int) =~= ws);
        assert(ls.take(li + 1).drop_last() =~= ls.take(li as int));
        let ghost before = lines_view(open.lines@);
        let ghost lw = words_view(line@);
        open.lines.push(TextLine { words: line });
        assert(lines_view(open.lines@) =~= before.push(lw));
        li = li + 1;
    }
    assert(ls.take(lines.len() as int) =~= ls);
    let ghost before = sections_view(done@);
    done.push(open);
    assert(sections_view(done@) =~= before.push(open@));
    done
}

/// The tag words among `ws`, in order.
pub open spec fn tags_in(ws: Seq<Seq<char>>) -> Seq<Seq<char>>
    decreases ws.len(),
{
    if ws.len() == 0 {
        Seq::empty()
    } else if is_tag(ws.last()) {
        tags_in(ws.drop_last()).push(ws.last())
    } else {
        tags_in(ws.drop_last())
    }
}

/// The tag words of one physical line.
pub open spec fn line_tags(line: Seq<char>) -> Seq<Seq<char>> {
    tags_in(split_spec(line, ' '))
}

/// The tag words of the given lines, in reading order.
pub open spec fn tags_of_lines(ls: Seq<Seq<char>>) -> Seq<Seq<char>>
    decreases ls.len(),
{
    if ls.len() == 0 {
        Seq::empty()
    } else {
        tags_of_lines(ls.drop_last()) + line_tags(ls.last())
    }
}

/// Number of maximal runs of equal adjacent elements of `ts`.
pub open spec fn tag_runs(ts: Seq<Seq<char>>) -> int
    decreases ts.len(),
{
    if ts.len() == 0 {
        0
    } else if ts.len() == 1 || ts.last() != ts[ts.len() - 2] {
        tag_runs(ts.drop_last()) + 1
    } else {
        tag_runs(ts.drop_last())
    }
}

pub open spec fn last_or_empty(ts: Seq<Seq<char>>) -> Seq<char> {
    if ts.len() == 0 {
        Seq::empty()
    } else {
        ts.last()
    }
}

/// The sections that exist besides those opened by a run of tags: one when no
/// tag stands on the first line.
pub open spec fn placeholder_count(ts: Seq<Seq<char>>, tag_on_first_line: bool) -> int {
    if ts.len() == 0 || !tag_on_first_line {
        1
    } else {
        0
    }
}

proof fn lemma_tags_in_are_tags(ws: Seq<Seq<char>>)
    ensures
        forall|k: int| 0 <= k < tags_in(ws).len() ==> is_tag(#[trigger] tags_in(ws)[k]),
    decreases ws.len(),
{
    if ws.len() > 0 {
        let pre = tags_in(ws.drop_last());
        lemma_tags_in_are_tags(ws.drop_last());
        assert forall|k: int| 0 <= k < tags_in(ws).len() implies is_tag(#[trigger] tags_in(ws)[k]) by {
            if k < pre.len() {
                assert(tags_in(ws)[k] == pre[k]);
            }
        }
    }
}

proof fn lemma_words_runs(
    st: ParseState,
    ws: Seq<Seq<char>>,
    first_line: bool,
    ts: Seq<Seq<char>>,
    on_first: bool,
)
    requires
        st.last_tag == last_or_empty(ts),
        forall|k: int| 0 <= k < ts.len() ==> is_tag(#[trigger] ts[k]),
        st.done.len() + 1 == tag_runs(ts) + placeholder_count(ts, on_first),
        first_line ==> on_first == (ts.len() > 0),
        !first_line && ts.len() == 0 ==> !on_first,
    ensures
        ({
            let t2 = ts + tags_in(ws);
            let on2 = if first_line { t2.len() > 0 } else { on_first };
            &&& words_fold(st, ws, first_line).last_tag == last_or_empty(t2)
            &&& words_fold(st, ws, first_line).done.len() + 1 == tag_runs(t2) + placeholder_count(
                t2,
                on2,
            )
        }),
    decreases ws.len(),
{
    if ws.len() == 0 {
        assert(ts + tags_in(ws) =~= ts);
    } else {
        let pre = ws.drop_last();
        lemma_words_runs(st, pre, first_line, ts, on_first);
        let t1 = ts + tags_in(pre);
        let w = ws.last();
        lemma_tags_in_are_tags(pre);
        assert(forall|k: int| 0 <= k < t1.len() ==> is_tag(#[trigger] t1[k])) by {
            assert forall|k: int| 0 <= k < t1.len() implies is_tag(#[trigger] t1[k]) by {
                if k >= ts.len() {
                    assert(t1[k] == tags_in(pre)[k - ts.len()]);
                }
            }
        }
        if t1.len() > 0 {
            assert(is_tag(t1[t1.len() - 1]));
        }
        if is_tag(w) {
            assert(ts + tags_in(ws) =~= t1.push(w));
            assert(t1.push(w).drop_last() =~= t1);
        } else {
            assert(ts + tags_in(ws) =~= t1);
        }
    }
}

proof fn lemma_lines_tags_are_tags(ls: Seq<Seq<char>>)
    ensures
        forall|k: int| 0 <= k < tags_of_lines(ls).len() ==> is_tag(#[trigger] tags_of_lines(ls)[k]),
    decreases ls.len(),
{
    if ls.len() > 0 {
        let pre = ls.drop_last();
        lemma_lines_tags_are_tags(pre);
        lemma_tags_in_are_tags(split_spec(ls.last(), ' '));
        let a = tags_of_lines(pre);
        let b = line_tags(ls.last());
        assert forall|k: int| 0 <= k < tags_of_lines(ls).len() implies is_tag(
            #[trigger] tags_of_lines(ls)[k],
        ) by {
            if k >= a.len() {
                assert(tags_of_lines(ls)[k] == b[k - a.len()]);
            } else {
                assert(tags_of_lines(ls)[k] == a[k]);
            }
        }
    }
}

proof fn lemma_line_tags_prefix(ls: Seq<Seq<char>>)
    requires
        ls.len() >= 1,
    ensures
        tags_of_lines(ls).len() >= line_tags(ls[0]).len(),
    decreases ls.len(),
{
    if ls.len() > 1 {
        lemma_line_tags_prefix(ls.drop_last());
    } else {
        assert(ls.drop_last() =~= Seq::<Seq<char>>::empty());
    }
}

proof fn lemma_lines_runs(ls: Seq<Seq<char>>)
    ensures
        ({
            let ts = tags_of_lines(ls);
            let on_first = ls.len() > 0 && line_tags(ls[0]).len() > 0;
            &&& lines_fold(ls).last_tag == last_or_empty(ts)
            &&& lines_fold(ls).done.len() + 1 == tag_runs(ts) + placeholder_count(ts, on_first)
        }),
    decreases ls.len(),
{
    if ls.len() > 0 {
        let pre = ls.drop_last();
        lemma_lines_runs(pre);
        let on_first = line_tags(ls[0]).len() > 0;
        if ls.len() == 1 {
            assert(pre =~= Seq::<Seq<char>>::empty());
            assert(tags_of_lines(ls) =~= line_tags(ls[0]));
        } else {
            assert(pre[0] == ls[0]);
            lemma_line_tags_prefix(pre);
        }
        lemma_tags_in_are_tags(split_spec(ls.last(), ' '));
        lemma_lines_tags_are_tags(pre);
        lemma_words_runs(
            lines_fold(pre),
            split_spec(ls.last(), ' '),
            ls.len() == 1,
            tags_of_lines(pre),
            if ls.len() == 1 { false } else { on_first },
        );
    }
}

proof fn lemma_split_nonempty(s: Seq<char>, sep: char)
    ensures
        split_spec(s, sep).len() >= 1,
    decreases s.len(),
{
    if s.len() > 0 {
        lemma_split_nonempty(s.drop_last(), sep);
    }
}

/// A log yields one section for each maximal run of equal adjacent tag words,
/// and one more, the section open at the start, when it holds no tag or none on
/// its first line.
pub proof fn lemma_section_count(text: Seq<char>)
    ensures
        ({
            let ls = split_spec(text, '\n');
            let ts = tags_of_lines(ls);
            parse_spec(text).len() == tag_runs(ts) + placeholder_count(ts, line_tags(ls[0]).len() > 0)
        }),
{
    lemma_split_nonempty(text, '\n');
    lemma_lines_runs(split_spec(text, '\n'));
}

} // verus!
