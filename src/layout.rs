//! Page geometry and draw calls. All lengths are in half-millimetres, with the
//! origin at the bottom left of the page.
use vstd::prelude::*;
use crate::sections::{parse_spec, sections_view, Rgb, Section, SectionModel};

verus! {

/// Largest page height that the layout accepts.
pub const MAX_PAGE_HEIGHT: i64 = 1_000_000_000_000_000_000;

/// What a text call writes: a banner word, or the header of a section.
#[derive(Clone, Copy, PartialEq, Eq, Structural, Debug)]
pub enum Label {
    Begin,
    End,
    Header(usize),
}

/// One instruction to the rendering backend.
#[derive(Clone, Copy, PartialEq, Eq, Structural, Debug)]
pub enum DrawCall {
    /// Fills the rectangle with corners (x0, y0) and (x1, y1).
    Fill { x0: i64, y0: i64, x1: i64, y1: i64, color: Rgb },
    /// Writes a label with its baseline starting at (x, y).
    Text { label: Label, x: i64, y: i64, size: u8, color: Rgb },
    /// Writes the words of one line of a section, each in its own font,
    /// starting at (x, y).
    Words { section: usize, line: usize, x: i64, y: i64, size: u8, color: Rgb },
}

pub open spec fn gray_light() -> Rgb {
    Rgb { r: 204, g: 204, b: 204 }
}

pub open spec fn gray_dark() -> Rgb {
    Rgb { r: 153, g: 153, b: 153 }
}

pub open spec fn white() -> Rgb {
    Rgb { r: 255, g: 255, b: 255 }
}

pub open spec fn black_ink() -> Rgb {
    Rgb { r: 0, g: 0, b: 0 }
}

/// Vertical space of one section: 9.5 mm a line and 5.5 mm after it.
pub open spec fn section_height(s: SectionModel) -> int {
    19 * (s.lines.len() as int) + 11
}

/// Page height: a 7 mm margin and the height of every section.
pub open spec fn height_spec(ss: Seq<SectionModel>) -> int
    decreases ss.len(),
{
    if ss.len() == 0 {
        14
    } else {
        height_spec(ss.drop_last()) + section_height(ss.last())
    }
}

/// Offset from the top of the page at which the section after `ss` starts.
pub open spec fn advance_spec(ss: Seq<SectionModel>) -> int
    decreases ss.len(),
{
    if ss.len() == 0 {
        20
    } else {
        advance_spec(ss.drop_last()) + 19 * (ss.last().lines.len() as int) + 9
    }
}

/// A section adds 9.5 mm for each of its lines and 5.5 mm more to the page height,
/// whatever stands above it; an empty page is 7 mm high.
pub proof fn lemma_height_of_push(ss: Seq<SectionModel>, s: SectionModel)
    ensures
        height_spec(Seq::<SectionModel>::empty()) == 14,
        height_spec(ss.push(s)) == height_spec(ss) + 19 * s.lines.len() + 11,
{
    assert(ss.push(s).drop_last() =~= ss);
}

proof fn lemma_height_concat(a: Seq<SectionModel>, b: Seq<SectionModel>)
    ensures
        height_spec(a + b) == height_spec(a) + height_spec(b) - 14,
    decreases b.len(),
{
    if b.len() == 0 {
        assert(a + b =~= a);
    } else {
        assert((a + b).drop_last() =~= a + b.drop_last());
        lemma_height_concat(a, b.drop_last());
    }
}

/// Inserting a section at any position adds 9.5 mm for each of its lines and
/// 5.5 mm more to the page height, whatever its header, colour and words.
pub proof fn lemma_height_of_insert(ss: Seq<SectionModel>, k: int, s: SectionModel)
    requires
        0 <= k <= ss.len(),
    ensures
        height_spec(ss.insert(k, s)) == height_spec(ss) + 19 * s.lines.len() + 11,
{
    let one = seq![s];
    assert(one.drop_last() =~= Seq::<SectionModel>::empty());
    assert(height_spec(Seq::<SectionModel>::empty()) == 14);
    assert(height_spec(one) == 14 + 19 * s.lines.len() + 11);
    assert(ss.insert(k, s) =~= ss.take(k) + (one + ss.skip(k)));
    assert(ss =~= ss.take(k) + ss.skip(k));
    lemma_height_concat(ss.take(k), one + ss.skip(k));
    lemma_height_concat(one, ss.skip(k));
    lemma_height_concat(ss.take(k), ss.skip(k));
}

pub proof fn lemma_height_prefix(ss: Seq<SectionModel>, k: int)
    requires
        0 <= k <= ss.len(),
    ensures
        height_spec(ss.take(k)) <= height_spec(ss),
        height_spec(ss.take(k)) >= 14,
    decreases ss.len(),
{
    if k == ss.len() {
        assert(ss.take(k) =~= ss);
        lemma_height_min(ss);
    } else {
        assert(ss.drop_last().take(k) =~= ss.take(k));
        lemma_height_prefix(ss.drop_last(), k);
    }
}

pub proof fn lemma_height_min(ss: Seq<SectionModel>)
    ensures
        height_spec(ss) >= 14 + 11 * ss.len(),
    decreases ss.len(),
{
    if ss.len() > 0 {
        lemma_height_min(ss.drop_last());
    }
}

pub proof fn lemma_advance(ss: Seq<SectionModel>)
    ensures
        advance_spec(ss) == height_spec(ss) + 6 - 2 * ss.len(),
    decreases ss.len(),
{
    if ss.len() > 0 {
        lemma_advance(ss.drop_last());
    }
}

/// Page height of the given sections, or `None` where it exceeds `MAX_PAGE_HEIGHT`.
pub fn page_height(sections: &Vec<Section>) -> (r: Option<i64>)
    ensures
        r is Some <==> height_spec(sections_view(sections@)) <= MAX_PAGE_HEIGHT,
        r matches Some(h) ==> h == height_spec(sections_view(sections@)),
{
    let ghost sv = sections_view(sections@);
    let mut h: i64 = 14;
    let mut i: usize = 0;
    assert(sv.take(0) =~= Seq::<SectionModel>::empty());
    while i < sections.len()
        invariant
            sv == sections_view(sections@),
            i <= sections.len(),
            h == height_spec(sv.take(i as int)),
            h <= MAX_PAGE_HEIGHT,
        decreases sections.len() - i,
    {
        let n = sections[i].lines.len();
        assert(sv.take(i + 1).drop_last() =~= sv.take(i as int));
        assert(sv[i as int].lines.len() == n);
        proof {
            lemma_height_prefix(sv, i + 1);
            lemma_height_min(sv.take(i as int));
        }
        assert(height_spec(sv.take(i + 1)) == h + 19 * n + 11);
        if n as u64 > (MAX_PAGE_HEIGHT as u64) / 19 {
            assert(19 * (n as int) > MAX_PAGE_HEIGHT) by (nonlinear_arith)
                requires
                    n as int > MAX_PAGE_HEIGHT / 19,
                    MAX_PAGE_HEIGHT == 1_000_000_000_000_000_000int,
            ;
            return None;
        }
        let step = 19 * (n as i64) + 11;
        if h > MAX_PAGE_HEIGHT - step {
            return None;
        }
        h = h + step;
        i = i + 1;
    }
    assert(sv.take(sections.len() as int) =~= sv);
    Some(h)
}

pub open spec fn begin_calls(h: int) -> Seq<DrawCall> {
    seq![
        DrawCall::Fill { x0: 0, y0: (h - 20) as i64, x1: 420, y1: h as i64, color: gray_light() },
        DrawCall::Text { label: Label::Begin, x: 10, y: (h - 15) as i64, size: 22, color: white() },
        DrawCall::Fill { x0: 416, y0: h as i64, x1: 420, y1: 0, color: gray_light() },
    ]
}

pub open spec fn line_calls(i: int, n: int, h: int, a: int) -> Seq<DrawCall> {
    Seq::new(
        n as nat,
        |j: int|
            DrawCall::Words {
                section: i as usize,
                line: j as usize,
                x: 5,
                y: (h - 18 - 19 * j - a) as i64,
                size: 12,
                color: black_ink(),
            },
    )
}

/// The calls of one section whose top lies `a` below the top of the page: its
/// header bar and label, its lines, and the strip along its left edge.
pub open spec fn section_calls(i: int, s: SectionModel, h: int, a: int) -> Seq<DrawCall> {
    let n = s.lines.len() as int;
    seq![
        DrawCall::Fill { x0: 0, y0: (h - 20 - a) as i64, x1: 210, y1: (h - a) as i64, color: s.color },
        DrawCall::Text {
            label: Label::Header(i as usize),
            x: 10,
            y: (h - 15 - a) as i64,
            size: 22,
            color: white(),
        },
    ] + line_calls(i, n, h, a) + seq![
        DrawCall::Fill {
            x0: 0,
            y0: (h - 20 - a) as i64,
            x1: 4,
            y1: (h - 9 - 19 * n - a) as i64,
            color: s.color,
        },
    ]
}

pub open spec fn body_calls(ss: Seq<SectionModel>, h: int) -> Seq<DrawCall>
    decreases ss.len(),
{
    if ss.len() == 0 {
        Seq::empty()
    } else {
        body_calls(ss.drop_last(), h) + section_calls(
            ss.len() - 1,
            ss.last(),
            h,
            advance_spec(ss.drop_last()),
        )
    }
}

pub open spec fn end_calls(h: int, a: int) -> Seq<DrawCall> {
    seq![
        DrawCall::Fill { x0: 0, y0: (h - a - 1) as i64, x1: 420, y1: (h - a + 19) as i64, color: gray_dark() },
        DrawCall::Text { label: Label::End, x: 10, y: (h - a + 4) as i64, size: 22, color: white() },
    ]
}

/// Every draw call of the page, top to bottom.
pub open spec fn render_spec(ss: Seq<SectionModel>) -> Seq<DrawCall> {
    let h = height_spec(ss);
    begin_calls(h) + body_calls(ss, h) + end_calls(h, advance_spec(ss))
}

/// The draw calls of a page of the given sections and height.
pub fn render(sections: &Vec<Section>, height: i64) -> (r: Vec<DrawCall>)
    requires
        height == height_spec(sections_view(sections@)),
        height <= MAX_PAGE_HEIGHT,
    ensures
        r@ == render_spec(sections_view(sections@)),
{
    let ghost sv = sections_view(sections@);
    let h = height;
    let mut calls: Vec<DrawCall> = Vec::new();
    let gray = Rgb { r: 204, g: 204, b: 204 };
    let paper = Rgb { r: 255, g: 255, b: 255 };
    let ink = Rgb { r: 0, g: 0, b: 0 };
    proof {
        lemma_height_min(sv);
    }
    calls.push(DrawCall::Fill { x0: 0, y0: h - 20, x1: 420, y1: h, color: gray });
    calls.push(DrawCall::Text { label: Label::Begin, x: 10, y: h - 15, size: 22, color: paper });
    calls.push(DrawCall::Fill { x0: 416, y0: h, x1: 420, y1: 0, color: gray });
    assert(calls@ =~= begin_calls(h as int));
    let mut a: i64 = 20;
    let mut i: usize = 0;
    assert(sv.take(0) =~= Seq::<SectionModel>::empty());
    assert(body_calls(sv.take(0), h as int) =~= Seq::<DrawCall>::empty());
    while i < sections.len()
        invariant
            sv == sections_view(sections@),
            h == height_spec(sv),
            14 <= h <= MAX_PAGE_HEIGHT,
            i <= sections.len(),
            a == advance_spec(sv.take(i as int)),
            calls@ == begin_calls(h as int) + body_calls(sv.take(i as int), h as int),
            gray == gray_light(),
            paper == white(),
            ink == black_ink(),
        decreases sections.len() - i,
    {
        let s = &sections[i];
        let n = s.lines.len();
        let ghost pre = sv.take(i as int);
        assert(sv.take(i + 1).drop_last() =~= pre);
        assert(sv.take(i + 1).last() == sv[i as int]);
        assert(sv[i as int].lines.len() == n);
        proof {
            lemma_height_prefix(sv, i + 1);
            lemma_height_min(pre);
            lemma_advance(pre);
        }
        assert(height_spec(sv.take(i + 1)) == height_spec(pre) + 19 * n + 11);
        let ghost base = calls@;
        calls.push(DrawCall::Fill { x0: 0, y0: h - 20 - a, x1: 210, y1: h - a, color: s.color });
        calls.push(
            DrawCall::Text { label: Label::Header(i), x: 10, y: h - 15 - a, size: 22, color: paper },
        );
        let ghost head = calls@;
        let mut j: usize = 0;
        let mut y: i64 = h - 18 - a;
        assert(head =~= head + line_calls(i as int, 0, h as int, a as int));
        while j < n
            invariant
                i < sv.len(),
                n == sv[i as int].lines.len(),
                19 * n + 11 + height_spec(pre) <= h,
                h <= MAX_PAGE_HEIGHT,
                a == height_spec(pre) + 6 - 2 * i,
                j <= n,
                y == h - 18 - 19 * j - a,
                calls@ == head + line_calls(i as int, j as int, h as int, a as int),
                ink == black_ink(),
            decreases n - j,
        {
            let ghost prev = calls@;
            calls.push(DrawCall::Words { section: i, line: j, x: 5, y, size: 12, color: ink });
            assert(calls@ =~= head + line_calls(i as int, j + 1, h as int, a as int));
            y = y - 19;
            j = j + 1;
        }
        let top = h - 20 - a;
        let bottom = h - 9 - 19 * (n as i64) - a;
        calls.push(DrawCall::Fill { x0: 0, y0: top, x1: 4, y1: bottom, color: s.color });
        assert(calls@ =~= base + section_calls(i as int, sv[i as int], h as int, a as int));
        a = a + 19 * (n as i64) + 9;
        i = i + 1;
    }
    assert(sv.take(sections.len() as int) =~= sv);
    proof {
        lemma_advance(sv);
        lemma_height_min(sv);
    }
    calls.push(
        DrawCall::Fill {
            x0: 0,
            y0: h - a - 1,
            x1: 420,
            y1: h - a + 19,
            color: Rgb { r: 153, g: 153, b: 153 },
        },
    );
    calls.push(DrawCall::Text { label: Label::End, x: 10, y: h - a + 4, size: 22, color: paper });
    calls
}

/// Parsing the same text twice and laying out each result gives the same page
/// height and the same draw calls.
pub proof fn lemma_pipeline_deterministic(text: Seq<char>, first: Seq<Section>, second: Seq<Section>)
    requires
        sections_view(first) == parse_spec(text),
        sections_view(second) == parse_spec(text),
    ensures
        height_spec(sections_view(first)) == height_spec(sections_view(second)),
        render_spec(sections_view(first)) == render_spec(sections_view(second)),
{
}

} // verus!
