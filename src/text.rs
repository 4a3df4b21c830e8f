//! Splitting of raw text and per-word style detection.
use vstd::prelude::*;
use vstd::string::{StrSliceExecFns, StringExecFns};

verus! {

/// Pattern of a word wrapped in `**` or `__`; group 2 is the inner text.
pub const BOLD_PATTERN: &'static str = "(\\*\\*|__)(.+)(\\*\\*|__)";

/// Pattern of a word wrapped in `*` or `_`; group 2 is the inner text.
pub const ITALIC_PATTERN: &'static str = "(\\*|_)(.+)(\\*|_)";

/// Whether `t` holds at `i` a delimiter of `width` characters, all `*` or all `_`.
pub open spec fn delim_at(t: Seq<char>, i: int, width: int) -> bool {
    0 <= i && i + width <= t.len() && ((forall|k: int| i <= k < i + width ==> t[k] == '*') || (
    forall|k: int| i <= k < i + width ==> t[k] == '_'))
}

/// Whether delimiters at `i` and at `j` enclose at least one character and no
/// line break.
pub open spec fn encloses(t: Seq<char>, i: int, j: int, width: int) -> bool {
    &&& delim_at(t, i, width)
    &&& delim_at(t, j, width)
    &&& i + width < j
    &&& forall|k: int| i + width <= k < j ==> t[k] != '\n'
}

pub open spec fn opens_at(t: Seq<char>, i: int, width: int) -> bool {
    exists|j: int| encloses(t, i, j, width)
}

/// Group 2 of the first match of `(D)(.+)(D)` in `t`, where `D` stands for `width`
/// stars or `width` underscores: the match starts at the leftmost delimiter that
/// has a closing one, and the greedy `.+` runs to the last closing delimiter.
#[verifier::opaque]
pub open spec fn wrapped_inner(t: Seq<char>, width: int) -> Option<Seq<char>> {
    if exists|i: int| opens_at(t, i, width) {
        let i = choose|i: int|
            opens_at(t, i, width) && forall|i2: int| opens_at(t, i2, width) ==> i <= i2;
        let j = choose|j: int|
            encloses(t, i, j, width) && forall|j2: int| encloses(t, i, j2, width) ==> j2 <= j;
        Some(t.subrange(i + width, j))
    } else {
        None
    }
}

pub open spec fn opt_view(o: Option<String>) -> Option<Seq<char>> {
    match o {
        Some(s) => Some(s@),
        None => None,
    }
}

/// Relies on regex::Regex::new, regex::Regex::captures and regex::Captures::get:
/// compiles `pattern` and returns the text of the given group of the leftmost-first
/// match in `text`, where `.` takes any character but a line break.
#[verifier::external_body]
fn first_capture(pattern: &str, text: &str, group: usize) -> (r: Option<String>)
    ensures
        pattern@ == BOLD_PATTERN@ && group == 2 ==> opt_view(r) == wrapped_inner(text@, 2),
        pattern@ == ITALIC_PATTERN@ && group == 2 ==> opt_view(r) == wrapped_inner(text@, 1),
{
    match regex::Regex::new(pattern) {
        Ok(re) => re.captures(text).and_then(|c| c.get(group)).map(|m| m.as_str().to_string()),
        Err(_) => None,
    }
}

/// The pieces of `s` between occurrences of `sep`, as `str::split` yields them:
/// always at least one piece, empty pieces kept.
pub open spec fn split_spec(s: Seq<char>, sep: char) -> Seq<Seq<char>>
    decreases s.len(),
{
    if s.len() == 0 {
        seq![Seq::<char>::empty()]
    } else {
        let prev = split_spec(s.drop_last(), sep);
        if s.last() == sep {
            prev.push(Seq::<char>::empty())
        } else {
            prev.update(prev.len() - 1, prev.last().push(s.last()))
        }
    }
}

pub open spec fn strings_view(v: Seq<String>) -> Seq<Seq<char>> {
    v.map_values(|s: String| s@)
}

/// Splits `s` at every `sep`, keeping empty pieces.
pub fn split_on(s: &str, sep: char) -> (r: Vec<String>)
    ensures
        strings_view(r@) == split_spec(s@, sep),
{
    let n = s.unicode_len();
    let mut pieces: Vec<String> = Vec::new();
    let mut start: usize = 0;
    let mut i: usize = 0;
    assert(s@.take(0) =~= Seq::<char>::empty());
    assert(strings_view(pieces@) =~= Seq::<Seq<char>>::empty());
    assert(strings_view(pieces@).push(s@.subrange(0, 0)) =~= split_spec(s@.take(0), sep));
    while i < n
        invariant
            n == s@.len(),
            start <= i <= n,
            split_spec(s@.take(i as int), sep) == strings_view(pieces@).push(
                s@.subrange(start as int, i as int),
            ),
        decreases n - i,
    {
        let c = s.get_char(i);
        let ghost before = strings_view(pieces@);
        assert(s@.take(i + 1).drop_last() == s@.take(i as int));
        assert(s@.take(i + 1).last() == c);
        if c == sep {
            let piece = String::from_str(s.substring_char(start, i));
            pieces.push(piece);
            assert(strings_view(pieces@) == before.push(s@.subrange(start as int, i as int)));
            start = i + 1;
            assert(s@.subrange(start as int, i + 1) =~= Seq::<char>::empty());
        } else {
            assert(s@.subrange(start as int, i + 1) =~= s@.subrange(start as int, i as int).push(c));
            assert(before.push(s@.subrange(start as int, i as int)).update(
                before.len() as int,
                s@.subrange(start as int, i + 1),
            ) =~= before.push(s@.subrange(start as int, i + 1)));
        }
        i = i + 1;
    }
    let last = String::from_str(s.substring_char(start, n));
    let ghost before = strings_view(pieces@);
    pieces.push(last);
    assert(strings_view(pieces@) == before.push(s@.subrange(start as int, n as int)));
    assert(s@.take(n as int) =~= s@);
    pieces
}

/// A word with its style: `bold` and `italic` select the font, `text` is what is
/// drawn, with the trailing space that separates it from the next word.
pub struct StyledWord {
    pub bold: bool,
    pub italic: bool,
    pub text: String,
}

/// Mathematical model of a styled word.
pub struct WordModel {
    pub bold: bool,
    pub italic: bool,
    pub text: Seq<char>,
}

impl View for StyledWord {
    type V = WordModel;

    open spec fn view(&self) -> WordModel {
        WordModel { bold: self.bold, italic: self.italic, text: self.text@ }
    }
}

/// The style a word gets from what the two patterns captured: bold where the bold
/// pattern matched, italic where the italic one did, and the innermost capture as text.
pub open spec fn style_from(word: Seq<char>, bold: Option<Seq<char>>, italic: Option<Seq<char>>) -> WordModel {
    let inner = match italic {
        Some(t) => t,
        None => match bold {
            Some(t) => t,
            None => word,
        },
    };
    WordModel { bold: bold is Some, italic: italic is Some, text: inner.push(' ') }
}

/// What the bold pattern leaves of a word: its capture, or the word itself.
pub open spec fn after_bold(word: Seq<char>) -> Seq<char> {
    match wrapped_inner(word, 2) {
        Some(t) => t,
        None => word,
    }
}

/// The styled form of a non-tag word: the bold pattern is tried on the word, then
/// the italic pattern on what the bold one left.
pub open spec fn style_word_spec(word: Seq<char>) -> WordModel {
    style_from(
        word,
        wrapped_inner(word, 2),
        wrapped_inner(after_bold(word), 1),
    )
}

/// Builds the styled word from the captures of the bold and italic patterns.
pub fn apply_captures(word: &str, bold: Option<String>, italic: Option<String>) -> (r: StyledWord)
    ensures
        r@ == style_from(word@, opt_view(bold), opt_view(italic)),
{
    let is_bold = bold.is_some();
    let is_italic = italic.is_some();
    let mut text = match italic {
        Some(t) => t,
        None => match bold {
            Some(t) => t,
            None => String::from_str(word),
        },
    };
    text.append(" ");
    proof {
        reveal_strlit(" ");
        assert(text@ =~= style_from(word@, opt_view(bold), opt_view(italic)).text);
    }
    StyledWord { bold: is_bold, italic: is_italic, text }
}

/// Styles a non-tag word.
pub fn style_word(word: &str) -> (r: StyledWord)
    ensures
        r@ == style_word_spec(word@),
{
    let bold = first_capture(BOLD_PATTERN, word, 2);
    let italic = match &bold {
        Some(t) => first_capture(ITALIC_PATTERN, t.as_str(), 2),
        None => first_capture(ITALIC_PATTERN, word, 2),
    };
    apply_captures(word, bold, italic)
}

/// Path of the font file that draws a word of the given style.
pub fn font_path(bold: bool, italic: bool) -> (r: String)
    ensures
        r@ == font_path_spec(bold, italic),
{
    let mut p = String::from_str("static/fonts/roboto/");
    p.append(if bold { "bold" } else { "regular" });
    p.append("-");
    p.append(if italic { "italic" } else { "normal" });
    p.append(".ttf");
    p
}

pub open spec fn font_path_spec(bold: bool, italic: bool) -> Seq<char> {
    "static/fonts/roboto/"@ + (if bold { "bold"@ } else { "regular"@ }) + "-"@ + (if italic {
        "italic"@
    } else {
        "normal"@
    }) + ".ttf"@
}

proof fn lemma_wrapped(d: Seq<char>, x: Seq<char>, c: char)
    requires
        d.len() >= 1,
        c == '*' || c == '_',
        forall|k: int| 0 <= k < d.len() ==> d[k] == c,
        x.len() > 0,
        forall|k: int| 0 <= k < x.len() ==> x[k] != '\n',
    ensures
        wrapped_inner(d + x + d, d.len() as int) == Some(x),
{
    reveal(wrapped_inner);
    let t = d + x + d;
    let w = d.len() as int;
    let n = t.len() as int;
    assert(forall|k: int| 0 <= k < w ==> t[k] == d[k]);
    assert(forall|k: int| n - w <= k < n ==> t[k] == d[k - (n - w)]);
    assert(forall|k: int| w <= k < n - w ==> t[k] == x[k - w]);
    assert(delim_at(t, 0, w));
    assert(delim_at(t, n - w, w));
    assert(encloses(t, 0, n - w, w));
    assert(opens_at(t, 0, w));
    let i = choose|i: int| opens_at(t, i, w) && forall|i2: int| opens_at(t, i2, w) ==> i <= i2;
    assert(opens_at(t, 0, w) && forall|i2: int| opens_at(t, i2, w) ==> 0 <= i2);
    assert(i == 0);
    let j = choose|j: int| encloses(t, 0, j, w) && forall|j2: int| encloses(t, 0, j2, w) ==> j2 <= j;
    assert(encloses(t, 0, n - w, w) && forall|j2: int| encloses(t, 0, j2, w) ==> j2 <= n - w);
    assert(j == n - w);
    assert(t.subrange(w, n - w) =~= x);
}

/// A word `**x**` is bold, not italic, and reads `x`, where `x` is not itself
/// wrapped in `*` or `_`.
pub proof fn lemma_bold_round_trip(x: Seq<char>)
    requires
        x.len() > 0,
        forall|k: int| 0 <= k < x.len() ==> x[k] != '\n',
        wrapped_inner(x, 1) is None,
    ensures
        style_word_spec(seq!['*', '*'] + x + seq!['*', '*']) == (WordModel {
            bold: true,
            italic: false,
            text: x.push(' '),
        }),
{
    let word = seq!['*', '*'] + x + seq!['*', '*'];
    lemma_wrapped(seq!['*', '*'], x, '*');
    assert(wrapped_inner(word, 2) == Some(x));
    assert(after_bold(word) == x);
    assert(style_word_spec(word) == style_from(word, Some(x), None));
}

/// A word `*x*` is italic, not bold, and reads `x`, where the word holds no
/// bold match.
pub proof fn lemma_italic_round_trip(x: Seq<char>)
    requires
        x.len() > 0,
        forall|k: int| 0 <= k < x.len() ==> x[k] != '\n',
        wrapped_inner(seq!['*'] + x + seq!['*'], 2) is None,
    ensures
        style_word_spec(seq!['*'] + x + seq!['*']) == (WordModel {
            bold: false,
            italic: true,
            text: x.push(' '),
        }),
{
    lemma_wrapped(seq!['*'], x, '*');
}

/// A word `**_x_**` is bold and italic and reads `x`.
pub proof fn lemma_bold_italic_round_trip(x: Seq<char>)
    requires
        x.len() > 0,
        forall|k: int| 0 <= k < x.len() ==> x[k] != '\n',
    ensures
        style_word_spec(seq!['*', '*'] + (seq!['_'] + x + seq!['_']) + seq!['*', '*']) == (WordModel {
            bold: true,
            italic: true,
            text: x.push(' '),
        }),
{
    let inner = seq!['_'] + x + seq!['_'];
    assert forall|k: int| 0 <= k < inner.len() implies inner[k] != '\n' by {
        if 1 <= k < inner.len() - 1 {
            assert(inner[k] == x[k - 1]);
        }
    }
    lemma_wrapped(seq!['*', '*'], inner, '*');
    lemma_wrapped(seq!['_'], x, '_');
}

} // verus!
