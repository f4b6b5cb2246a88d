//! The CUBE text format for 3D LUTs: keyword lines (`TITLE`, `LUT_3D_SIZE`,
//! `DOMAIN_MIN`, `DOMAIN_MAX`) followed by one `r g b` line per sample.
//!
//! Numbers are kept as the text that holds them; a token counts as a number
//! when it has the syntax of a floating-point literal.
use vstd::prelude::*;
use crate::lines::{
    is_whitespace, join_lines, join_words, lacks, lemma_join_push, lemma_lines_of_join,
    lemma_trimmed_unchanged, lemma_words_of_join, lines_of, solid, trimmed, words_of,
};
use crate::text::{
    all_digits, digits_value, is_digit, is_float_literal, is_float_text, is_mantissa,
    is_number_char, lemma_float_text_chars, parse_u8, u8_of_text, without_plus,
};
use vstd::std_specs::iter::IteratorSpec;

verus! {

/// Relies on `str::lines`: the lines of `text`, without their line endings.
#[verifier::external_body]
fn text_lines(text: &str) -> (r: Vec<String>)
    ensures
        r@.len() == lines_of(text@).len(),
        forall|i: int| 0 <= i < r@.len() ==> #[trigger] r@[i]@ == lines_of(text@)[i],
{
    text.lines().map(|l| l.to_string()).collect()
}

/// Relies on `str::trim`: `s` without leading and trailing whitespace.
#[verifier::external_body]
fn trim_line(s: &str) -> (r: String)
    ensures
        r@ == trimmed(s@),
{
    s.trim().to_string()
}

/// Relies on `str::split_whitespace`: the words of `s`, in order.
#[verifier::external_body]
fn split_words(s: &str) -> (r: Vec<String>)
    ensures
        r@.len() == words_of(s@).len(),
        forall|i: int| 0 <= i < r@.len() ==> #[trigger] r@[i]@ == words_of(s@)[i],
{
    s.split_whitespace().map(|w| w.to_string()).collect()
}

/// The characters of `s`, in order.
fn chars_of(s: &str) -> (r: Vec<char>)
    ensures
        r@ == s@,
{
    broadcast use vstd::string::axiom_spec_iter, vstd::string::next_postcondition;

    let mut it = s.chars();
    let mut r: Vec<char> = Vec::new();
    loop
        invariant
            it.obeys_prophetic_iter_laws(),
            it.decrease() is Some,
            r@ + it.remaining() == s@,
        ensures
            it.remaining().len() == 0,
            r@ + it.remaining() == s@,
        decreases it.decrease()->0,
    {
        match it.next() {
            Some(c) => {
                r.push(c);
            },
            None => {
                break;
            },
        }
    }
    assert(r@ =~= s@);
    r
}

/// Relies on collecting characters into a `String`: the string of `v`.
#[verifier::external_body]
fn string_of(v: &Vec<char>) -> (r: String)
    ensures
        r@ == v@,
{
    v.iter().collect()
}

/// Three numbers of a line, as text.
pub type Triple = (Seq<char>, Seq<char>, Seq<char>);

pub open spec fn triple_view(t: (String, String, String)) -> Triple {
    (t.0@, t.1@, t.2@)
}

/// What a CUBE document holds.
pub struct CubeDoc {
    pub title: Seq<char>,
    pub size: u8,
    pub domain_min: Triple,
    pub domain_max: Triple,
    pub data: Seq<Triple>,
}

/// A 3D LUT in the CUBE format. Each number is held as its text.
pub struct CubeLut3d {
    pub title: String,
    pub size: u8,
    pub domain_min: (String, String, String),
    pub domain_max: (String, String, String),
    pub data: Vec<(String, String, String)>,
}

impl View for CubeLut3d {
    type V = CubeDoc;

    open spec fn view(&self) -> CubeDoc {
        CubeDoc {
            title: self.title@,
            size: self.size,
            domain_min: triple_view(self.domain_min),
            domain_max: triple_view(self.domain_max),
            data: self.data@.map_values(|t: (String, String, String)| triple_view(t)),
        }
    }
}

/// Why a CUBE text could not be read.
#[derive(Debug, Clone, Copy, PartialEq, Eq, Structural)]
pub enum CubeError {
    /// A `TITLE` line holds no text in double quotes.
    MissingTitleValue,
    /// `LUT_3D_SIZE` is missing, or its value is not an integer from 2 to 255.
    InvalidSize,
    /// No line after the keywords holds data.
    MissingData,
    /// The number of data points is not the cube of the size.
    DataCountMismatch,
    /// `DOMAIN_MIN` is not followed by three numbers.
    InvalidDomainMin,
    /// `DOMAIN_MAX` is not followed by three numbers.
    InvalidDomainMax,
}

impl CubeError {
    /// A sentence that describes the error.
    pub fn message(&self) -> (r: &'static str)
        ensures
            *self == CubeError::MissingTitleValue ==> r@ == "Missing value for TITLE."@,
            *self == CubeError::InvalidSize ==> r@ == "Failed to parse LUT_3D_SIZE."@,
            *self == CubeError::MissingData ==> r@ == "Failed to find data points."@,
            *self == CubeError::DataCountMismatch ==> r@
                == "Data point count does not agree with LUT_3D_SIZE."@,
            *self == CubeError::InvalidDomainMin ==> r@ == "Failed to parse DOMAIN_MIN."@,
            *self == CubeError::InvalidDomainMax ==> r@ == "Failed to parse DOMAIN_MAX."@,
    {
        match self {
            CubeError::MissingTitleValue => "Missing value for TITLE.",
            CubeError::InvalidSize => "Failed to parse LUT_3D_SIZE.",
            CubeError::MissingData => "Failed to find data points.",
            CubeError::DataCountMismatch => "Data point count does not agree with LUT_3D_SIZE.",
            CubeError::InvalidDomainMin => "Failed to parse DOMAIN_MIN.",
            CubeError::InvalidDomainMax => "Failed to parse DOMAIN_MAX.",
        }
    }
}

/// The keywords that a line may start with.
pub enum Keyword {
    Title,
    Size,
    DomainMin,
    DomainMax,
}

pub open spec fn keyword_of(w: Seq<char>) -> Option<Keyword> {
    if w == seq!['T', 'I', 'T', 'L', 'E'] {
        Some(Keyword::Title)
    } else if w == seq!['L', 'U', 'T', '_', '3', 'D', '_', 'S', 'I', 'Z', 'E'] {
        Some(Keyword::Size)
    } else if w == seq!['D', 'O', 'M', 'A', 'I', 'N', '_', 'M', 'I', 'N'] {
        Some(Keyword::DomainMin)
    } else if w == seq!['D', 'O', 'M', 'A', 'I', 'N', '_', 'M', 'A', 'X'] {
        Some(Keyword::DomainMax)
    } else {
        None
    }
}

/// The keyword that starts a line, if any.
pub open spec fn line_keyword(l: Seq<char>) -> Option<Keyword> {
    let w = words_of(l);
    if w.len() > 0 {
        keyword_of(w[0])
    } else {
        None
    }
}

/// Empty lines and comments carry nothing.
pub open spec fn is_skipped(l: Seq<char>) -> bool {
    l.len() == 0 || l[0] == '#'
}

pub open spec fn is_data_line(l: Seq<char>) -> bool {
    !is_skipped(l) && line_keyword(l) is None
}

/// Words `i`, `i + 1` and `i + 2` of `w`, if all three are numbers.
pub open spec fn triple_at(w: Seq<Seq<char>>, i: int) -> Option<Triple> {
    if w.len() >= i + 3 && is_float_text(w[i]) && is_float_text(w[i + 1]) && is_float_text(
        w[i + 2],
    ) {
        Some((w[i], w[i + 1], w[i + 2]))
    } else {
        None
    }
}

/// Index of the first `"` in `l` at or after `from`, or the length of `l`.
pub open spec fn find_quote(l: Seq<char>, from: int) -> int
    decreases l.len() - from,
{
    if from >= l.len() {
        l.len() as int
    } else if l[from] == '"' {
        from
    } else {
        find_quote(l, from + 1)
    }
}

/// The text between the first two double quotes of `l`.
pub open spec fn quoted(l: Seq<char>) -> Option<Seq<char>> {
    let a = find_quote(l, 0);
    let b = find_quote(l, a + 1);
    if a < l.len() && b < l.len() {
        Some(l.subrange(a + 1, b))
    } else {
        None
    }
}

/// The keyword values read so far.
pub struct Header {
    pub title: Seq<char>,
    pub size: Option<u8>,
    pub domain_min: Triple,
    pub domain_max: Triple,
}

pub open spec fn zeros() -> Triple {
    (seq!['0', '.', '0'], seq!['0', '.', '0'], seq!['0', '.', '0'])
}

pub open spec fn ones() -> Triple {
    (seq!['1', '.', '0'], seq!['1', '.', '0'], seq!['1', '.', '0'])
}

pub open spec fn default_header() -> Header {
    Header { title: seq![], size: None, domain_min: zeros(), domain_max: ones() }
}

/// The effect of one keyword line. `LUT_3D_SIZE` without a value changes nothing.
pub open spec fn header_step(h: Header, l: Seq<char>) -> Result<Header, CubeError> {
    let w = words_of(l);
    match line_keyword(l) {
        Some(Keyword::Title) => match quoted(l) {
            Some(t) => Ok(Header { title: t, ..h }),
            None => Err(CubeError::MissingTitleValue),
        },
        Some(Keyword::Size) => if w.len() > 1 {
            Ok(Header { size: u8_of_text(w[1]), ..h })
        } else {
            Ok(h)
        },
        Some(Keyword::DomainMin) => match triple_at(w, 1) {
            Some(t) => Ok(Header { domain_min: t, ..h }),
            None => Err(CubeError::InvalidDomainMin),
        },
        Some(Keyword::DomainMax) => match triple_at(w, 1) {
            Some(t) => Ok(Header { domain_max: t, ..h }),
            None => Err(CubeError::InvalidDomainMax),
        },
        None => Ok(h),
    }
}

/// The keyword values of the first `n` lines, or the first error among them.
pub open spec fn header_of(ls: Seq<Seq<char>>, n: int) -> Result<Header, CubeError>
    decreases n,
{
    if n <= 0 {
        Ok(default_header())
    } else {
        match header_of(ls, n - 1) {
            Err(e) => Err(e),
            Ok(h) => if is_skipped(ls[n - 1]) {
                Ok(h)
            } else {
                header_step(h, ls[n - 1])
            },
        }
    }
}

/// Index of the first data line at or after `from`, or the number of lines.
pub open spec fn data_start(ls: Seq<Seq<char>>, from: int) -> int
    decreases ls.len() - from,
{
    if from >= ls.len() {
        ls.len() as int
    } else if is_data_line(ls[from]) {
        from
    } else {
        data_start(ls, from + 1)
    }
}

/// The triples held by lines `from..to`, in order; other lines are passed over.
pub open spec fn data_triples(ls: Seq<Seq<char>>, from: int, to: int) -> Seq<Triple>
    decreases to - from,
{
    if to <= from {
        seq![]
    } else {
        let prev = data_triples(ls, from, to - 1);
        let l = ls[to - 1];
        if !is_skipped(l) && triple_at(words_of(l), 0) is Some {
            prev.push(triple_at(words_of(l), 0)->Some_0)
        } else {
            prev
        }
    }
}

/// The document that a sequence of trimmed lines holds.
pub open spec fn doc_of_lines(ls: Seq<Seq<char>>) -> Result<CubeDoc, CubeError> {
    let k = data_start(ls, 0);
    match header_of(ls, k) {
        Err(e) => Err(e),
        Ok(h) => match h.size {
            None => Err(CubeError::InvalidSize),
            Some(size) => if size < 2 {
                Err(CubeError::InvalidSize)
            } else if k >= ls.len() {
                Err(CubeError::MissingData)
            } else {
                let d = data_triples(ls, k, ls.len() as int);
                if d.len() != size * size * size {
                    Err(CubeError::DataCountMismatch)
                } else {
                    Ok(
                        CubeDoc {
                            title: h.title,
                            size,
                            domain_min: h.domain_min,
                            domain_max: h.domain_max,
                            data: d,
                        },
                    )
                }
            },
        },
    }
}

pub open spec fn strings_view(v: Seq<String>) -> Seq<Seq<char>> {
    v.map_values(|s: String| s@)
}

/// The words of a line.
fn line_words(l: &String) -> (r: Vec<String>)
    ensures
        strings_view(r@) == words_of(l@),
{
    let r = split_words(l.as_str());
    assert(strings_view(r@) =~= words_of(l@));
    r
}

/// Whether the characters of `w` are those of `k`.
fn chars_equal(w: &Vec<char>, k: &[char]) -> (r: bool)
    ensures
        r == (w@ == k@),
{
    if w.len() != k.len() {
        return false;
    }
    let mut i: usize = 0;
    while i < k.len()
        invariant
            w@.len() == k@.len(),
            0 <= i <= k@.len(),
            forall|j: int| 0 <= j < i ==> w@[j] == k@[j],
        decreases k@.len() - i,
    {
        if w[i] != k[i] {
            return false;
        }
        i = i + 1;
    }
    assert(w@ =~= k@);
    true
}

/// The keyword that the word `w` names, if any.
fn keyword_of_word(w: &String) -> (r: Option<Keyword>)
    ensures
        r == keyword_of(w@),
{
    let c = chars_of(w.as_str());
    let title: [char; 5] = ['T', 'I', 'T', 'L', 'E'];
    let size: [char; 11] = ['L', 'U', 'T', '_', '3', 'D', '_', 'S', 'I', 'Z', 'E'];
    let dmin: [char; 10] = ['D', 'O', 'M', 'A', 'I', 'N', '_', 'M', 'I', 'N'];
    let dmax: [char; 10] = ['D', 'O', 'M', 'A', 'I', 'N', '_', 'M', 'A', 'X'];
    assert(title@ =~= seq!['T', 'I', 'T', 'L', 'E']);
    assert(size@ =~= seq!['L', 'U', 'T', '_', '3', 'D', '_', 'S', 'I', 'Z', 'E']);
    assert(dmin@ =~= seq!['D', 'O', 'M', 'A', 'I', 'N', '_', 'M', 'I', 'N']);
    assert(dmax@ =~= seq!['D', 'O', 'M', 'A', 'I', 'N', '_', 'M', 'A', 'X']);
    if chars_equal(&c, &title) {
        Some(Keyword::Title)
    } else if chars_equal(&c, &size) {
        Some(Keyword::Size)
    } else if chars_equal(&c, &dmin) {
        Some(Keyword::DomainMin)
    } else if chars_equal(&c, &dmax) {
        Some(Keyword::DomainMax)
    } else {
        None
    }
}

/// The keyword that starts a line with the words `w`, if any.
fn keyword_of_words(w: &Vec<String>) -> (r: Option<Keyword>)
    ensures
        r == (if w@.len() > 0 {
            keyword_of(w@[0]@)
        } else {
            None
        }),
{
    if w.len() > 0 {
        keyword_of_word(&w[0])
    } else {
        None
    }
}

/// Whether a word is the text of a number.
fn is_number_word(w: &String) -> (r: bool)
    ensures
        r == is_float_text(w@),
{
    let c = chars_of(w.as_str());
    is_float_literal(&c)
}

/// Words `i`, `i + 1` and `i + 2` of `w`, if all three are numbers.
fn triple_of_words(w: &Vec<String>, i: usize) -> (r: Option<(String, String, String)>)
    requires
        i <= 1,
    ensures
        r is Some <==> triple_at(strings_view(w@), i as int) is Some,
        r is Some ==> triple_view(r->Some_0) == triple_at(strings_view(w@), i as int)->Some_0,
{
    let ghost ws = strings_view(w@);
    if w.len() >= i + 3 && is_number_word(&w[i]) && is_number_word(&w[i + 1]) && is_number_word(
        &w[i + 2],
    ) {
        assert(ws[i as int] == w@[i as int]@);
        assert(ws[i + 1] == w@[i + 1]@);
        assert(ws[i + 2] == w@[i + 2]@);
        Some((w[i].clone(), w[i + 1].clone(), w[i + 2].clone()))
    } else {
        proof {
            if w@.len() >= i + 3 {
                assert(ws[i as int] == w@[i as int]@);
                assert(ws[i + 1] == w@[i + 1]@);
                assert(ws[i + 2] == w@[i + 2]@);
            }
        }
        None
    }
}

/// Index of the first `"` in `l` at or after `from`, or the length of `l`.
fn find_quote_at(l: &Vec<char>, from: usize) -> (r: usize)
    requires
        from <= l@.len(),
    ensures
        r == find_quote(l@, from as int),
        from <= r <= l@.len(),
{
    let mut i: usize = from;
    while i < l.len() && l[i] != '"'
        invariant
            from <= i <= l@.len(),
            find_quote(l@, from as int) == find_quote(l@, i as int),
        decreases l@.len() - i,
    {
        i = i + 1;
    }
    i
}

/// The text between the first two double quotes of `l`.
fn quoted_text(l: &String) -> (r: Option<String>)
    ensures
        r is Some <==> quoted(l@) is Some,
        r is Some ==> r->Some_0@ == quoted(l@)->Some_0,
{
    let c = chars_of(l.as_str());
    let a = find_quote_at(&c, 0);
    if a >= c.len() {
        return None;
    }
    let b = find_quote_at(&c, a + 1);
    if b >= c.len() {
        return None;
    }
    let mut inner: Vec<char> = Vec::new();
    let mut i: usize = a + 1;
    while i < b
        invariant
            a + 1 <= i <= b < c@.len(),
            inner@ == c@.subrange(a + 1, i as int),
        decreases b - i,
    {
        inner.push(c[i]);
        i = i + 1;
        assert(inner@ =~= c@.subrange(a + 1, i as int));
    }
    Some(string_of(&inner))
}

/// The document that a CUBE text holds: its lines are trimmed first.
pub open spec fn doc_of_text(text: Seq<char>) -> Result<CubeDoc, CubeError> {
    doc_of_lines(trimmed_lines(text))
}

/// The lines of a text, each trimmed.
pub open spec fn trimmed_lines(text: Seq<char>) -> Seq<Seq<char>> {
    lines_of(text).map_values(|l: Seq<char>| trimmed(l))
}

pub open spec fn header_view(
    title: String,
    size: Option<u8>,
    domain_min: (String, String, String),
    domain_max: (String, String, String),
) -> Header {
    Header {
        title: title@,
        size,
        domain_min: triple_view(domain_min),
        domain_max: triple_view(domain_max),
    }
}

/// Once reading the keyword lines has failed, later lines do not change the error.
proof fn lemma_header_error_stays(ls: Seq<Seq<char>>, n: int, m: int)
    requires
        0 <= n <= m,
        header_of(ls, n) is Err,
    ensures
        header_of(ls, m) == header_of(ls, n),
    decreases m - n,
{
    if m > n {
        lemma_header_error_stays(ls, n, m - 1);
    }
}

proof fn lemma_data_start_bounds(ls: Seq<Seq<char>>, from: int)
    requires
        0 <= from <= ls.len(),
    ensures
        from <= data_start(ls, from) <= ls.len(),
    decreases ls.len() - from,
{
    if from < ls.len() && !is_data_line(ls[from]) {
        lemma_data_start_bounds(ls, from + 1);
    }
}

/// An error on a keyword line before the data is the error of the whole text.
proof fn lemma_error_at(ls: Seq<Seq<char>>, i: int, e: CubeError)
    requires
        0 <= i < ls.len(),
        !is_data_line(ls[i]),
        data_start(ls, 0) == data_start(ls, i),
        header_of(ls, i + 1) == Err::<Header, CubeError>(e),
    ensures
        doc_of_lines(ls) == Err::<CubeDoc, CubeError>(e),
{
    lemma_data_start_bounds(ls, i + 1);
    lemma_header_error_stays(ls, i + 1, data_start(ls, 0));
}

/// The text of the number `d.0`, such as `0.0`.
fn number_text(d: char) -> (r: String)
    ensures
        r@ == seq![d, '.', '0'],
{
    let v: Vec<char> = vec![d, '.', '0'];
    assert(v@ =~= seq![d, '.', '0']);
    string_of(&v)
}

/// Whether a line is empty or a comment.
fn line_is_skipped(l: &String) -> (r: bool)
    ensures
        r == is_skipped(l@),
{
    let c = chars_of(l.as_str());
    c.len() == 0 || c[0] == '#'
}

pub open spec fn digit_char(d: int) -> char {
    seq!['0', '1', '2', '3', '4', '5', '6', '7', '8', '9'][d]
}

/// The decimal text of `n`, without leading zeros.
pub open spec fn decimal(n: nat) -> Seq<char>
    decreases n,
{
    if n < 10 {
        seq![digit_char(n as int)]
    } else {
        decimal(n / 10).push(digit_char((n % 10) as int))
    }
}

/// One data line without its line ending.
pub open spec fn triple_line(t: Triple) -> Seq<char> {
    t.0 + seq![' '] + t.1 + seq![' '] + t.2
}

/// The lines of the header that `write` produces.
pub open spec fn header_lines(d: CubeDoc) -> Seq<Seq<char>> {
    seq![
        "#Created by: smush_lut.exe"@,
        "TITLE \""@ + d.title + "\""@,
        seq![],
        "#LUT Size"@,
        "LUT_3D_SIZE "@ + decimal(d.size as nat),
        seq![],
        "#data domain"@,
        "DOMAIN_MIN 0.0 0.0 0.0"@,
        "DOMAIN_MAX 1.0 1.0 1.0"@,
        seq![],
        "#LUT data points"@,
    ]
}

/// The lines of the text that `write` produces.
pub open spec fn cube_lines(d: CubeDoc) -> Seq<Seq<char>> {
    header_lines(d) + d.data.map_values(|t: Triple| triple_line(t))
}

/// The text that `write` produces: its lines, each followed by `\n`. The
/// domain lines always hold the default domain.
pub open spec fn cube_text(d: CubeDoc) -> Seq<char> {
    join_lines(cube_lines(d))
}

/// Appends the characters of `s` to `out`.
fn push_text(out: &mut Vec<char>, s: &str)
    ensures
        final(out)@ == old(out)@ + s@,
{
    let c = chars_of(s);
    push_chars(out, &c);
}

/// Appends the characters of `c` to `out`.
fn push_chars(out: &mut Vec<char>, c: &Vec<char>)
    ensures
        final(out)@ == old(out)@ + c@,
{
    let ghost start = out@;
    let mut i: usize = 0;
    while i < c.len()
        invariant
            0 <= i <= c@.len(),
            out@ == start + c@.subrange(0, i as int),
        decreases c@.len() - i,
    {
        out.push(c[i]);
        i = i + 1;
        assert(out@ =~= start + c@.subrange(0, i as int));
    }
    assert(c@.subrange(0, c@.len() as int) =~= c@);
}

/// The decimal text of `n`.
fn decimal_chars(n: u8) -> (r: Vec<char>)
    ensures
        r@ == decimal(n as nat),
{
    let digits: [char; 10] = ['0', '1', '2', '3', '4', '5', '6', '7', '8', '9'];
    assert(digits@ =~= seq!['0', '1', '2', '3', '4', '5', '6', '7', '8', '9']);
    let mut r: Vec<char> = Vec::new();
    if n >= 100 {
        r.push(digits[(n / 100) as usize]);
    }
    if n >= 10 {
        r.push(digits[((n / 10) % 10) as usize]);
    }
    r.push(digits[(n % 10) as usize]);
    proof {
        let m = n as nat;
        if m >= 100 {
            assert(decimal(m / 100) == seq![digit_char((m / 100) as int)]);
            assert(decimal(m / 10) == decimal(m / 100).push(digit_char(((m / 10) % 10) as int))) by {
                assert((m / 10) / 10 == m / 100);
            }
        } else if m >= 10 {
            assert(decimal(m / 10) == seq![digit_char((m / 10) as int)]);
        }
        assert(r@ =~= decimal(m));
    }
    r
}

/// Appends a line and its line ending to `out`.
fn push_line(out: &mut Vec<char>, l: &Vec<char>)
    ensures
        final(out)@ == old(out)@ + l@ + seq!['\n'],
{
    push_chars(out, l);
    out.push('\n');
}

/// The characters of a data line.
fn triple_chars(t: &(String, String, String)) -> (r: Vec<char>)
    ensures
        r@ == triple_line(triple_view(*t)),
{
    let mut r = chars_of(t.0.as_str());
    r.push(' ');
    let b = chars_of(t.1.as_str());
    push_chars(&mut r, &b);
    r.push(' ');
    let c = chars_of(t.2.as_str());
    push_chars(&mut r, &c);
    assert(r@ =~= triple_line(triple_view(*t)));
    r
}

impl CubeLut3d {
    /// The CUBE text of this LUT: a comment, the title, the size, the
    /// default domain and one line per data point.
    pub fn write(&self) -> (r: String)
        ensures
            r@ == cube_text(self@),
    {
        let ghost d = self@;
        let mut out: Vec<char> = Vec::new();
        let ghost mut done: Seq<Seq<char>> = seq![];
        assert(join_lines(done) == out@);

        let l = chars_of("#Created by: smush_lut.exe");
        push_line(&mut out, &l);
        proof {
            lemma_join_push(done, l@);
            done = done.push(l@);
        }
        let mut l = chars_of("TITLE \"");
        let t = chars_of(self.title.as_str());
        push_chars(&mut l, &t);
        let q = chars_of("\"");
        push_chars(&mut l, &q);
        push_line(&mut out, &l);
        proof {
            lemma_join_push(done, l@);
            done = done.push(l@);
        }
        let l: Vec<char> = Vec::new();
        push_line(&mut out, &l);
        proof {
            lemma_join_push(done, l@);
            done = done.push(l@);
        }
        let l = chars_of("#LUT Size");
        push_line(&mut out, &l);
        proof {
            lemma_join_push(done, l@);
            done = done.push(l@);
        }
        let mut l = chars_of("LUT_3D_SIZE ");
        let size = decimal_chars(self.size);
        push_chars(&mut l, &size);
        push_line(&mut out, &l);
        proof {
            lemma_join_push(done, l@);
            done = done.push(l@);
        }
        let l: Vec<char> = Vec::new();
        push_line(&mut out, &l);
        proof {
            lemma_join_push(done, l@);
            done = done.push(l@);
        }
        let l = chars_of("#data domain");
        push_line(&mut out, &l);
        proof {
            lemma_join_push(done, l@);
            done = done.push(l@);
        }
        let l = chars_of("DOMAIN_MIN 0.0 0.0 0.0");
        push_line(&mut out, &l);
        proof {
            lemma_join_push(done, l@);
            done = done.push(l@);
        }
        let l = chars_of("DOMAIN_MAX 1.0 1.0 1.0");
        push_line(&mut out, &l);
        proof {
            lemma_join_push(done, l@);
            done = done.push(l@);
        }
        let l: Vec<char> = Vec::new();
        push_line(&mut out, &l);
        proof {
            lemma_join_push(done, l@);
            done = done.push(l@);
        }
        let l = chars_of("#LUT data points");
        push_line(&mut out, &l);
        proof {
            lemma_join_push(done, l@);
            done = done.push(l@);
            assert(done =~= header_lines(d));
        }

        let mut i: usize = 0;
        while i < self.data.len()
            invariant
                d == self@,
                0 <= i <= self.data@.len(),
                out@ == join_lines(
                    header_lines(d) + d.data.subrange(0, i as int).map_values(
                        |t: Triple| triple_line(t),
                    ),
                ),
            decreases self.data@.len() - i,
        {
            let l = triple_chars(&self.data[i]);
            let ghost before = header_lines(d) + d.data.subrange(0, i as int).map_values(
                |t: Triple| triple_line(t),
            );
            push_line(&mut out, &l);
            proof {
                lemma_join_push(before, l@);
                assert(d.data[i as int] == triple_view(self.data@[i as int]));
            }
            i = i + 1;
            assert(before.push(l@) =~= header_lines(d) + d.data.subrange(0, i as int).map_values(
                |t: Triple| triple_line(t),
            ));
        }
        assert(d.data.subrange(0, self.data@.len() as int) =~= d.data);
        string_of(&out)
    }

    /// Creates a new cube lut with the specified parameters.
    pub fn new(
        title: String,
        size: u8,
        domain_min: (String, String, String),
        domain_max: (String, String, String),
        data: Vec<(String, String, String)>,
    ) -> (r: CubeLut3d)
        ensures
            r.title == title,
            r.size == size,
            r.domain_min == domain_min,
            r.domain_max == domain_max,
            r.data == data,
    {
        CubeLut3d { title, size, domain_min, domain_max, data }
    }

    /// Reads a CUBE text. Lines are trimmed, and empty lines and comments
    /// (`#`) are passed over. Keyword lines come first, in any order; the first
    /// other line starts the data, and every later line that starts with three
    /// numbers adds a data point.
    pub fn from_text(text: &str) -> (r: Result<CubeLut3d, CubeError>)
        ensures
            match r {
                Ok(c) => doc_of_text(text@) == Ok::<CubeDoc, CubeError>(c@),
                Err(e) => doc_of_text(text@) == Err::<CubeDoc, CubeError>(e),
            },
    {
        let raw = text_lines(text);
        let ghost ls = trimmed_lines(text@);
        let n = raw.len();
        let mut lines: Vec<String> = Vec::new();
        let mut i: usize = 0;
        while i < n
            invariant
                n == raw@.len() == ls.len(),
                ls == trimmed_lines(text@),
                forall|j: int| 0 <= j < n ==> #[trigger] raw@[j]@ == lines_of(text@)[j],
                0 <= i <= n,
                lines@.len() == i,
                forall|j: int| 0 <= j < i ==> #[trigger] lines@[j]@ == ls[j],
            decreases n - i,
        {
            lines.push(trim_line(raw[i].as_str()));
            i = i + 1;
        }

        let mut title: String = string_of(&Vec::new());
        let mut size: Option<u8> = None;
        let mut domain_min = (number_text('0'), number_text('0'), number_text('0'));
        let mut domain_max = (number_text('1'), number_text('1'), number_text('1'));
        assert(header_view(title, size, domain_min, domain_max) == default_header());

        // The keyword lines, up to the first data line `k`.
        let mut k: usize = n;
        i = 0;
        while i < k
            invariant
                n == ls.len() == lines@.len(),
                ls == trimmed_lines(text@),
                forall|j: int| 0 <= j < n ==> #[trigger] lines@[j]@ == ls[j],
                0 <= i <= k <= n,
                k < n ==> k == i && is_data_line(ls[k as int]),
                data_start(ls, 0) == data_start(ls, i as int),
                header_of(ls, i as int) == Ok::<Header, CubeError>(
                    header_view(title, size, domain_min, domain_max),
                ),
            decreases k - i,
        {
            let line = &lines[i];
            let ghost l = ls[i as int];
            if line_is_skipped(line) {
                i = i + 1;
            } else {
                let words = line_words(line);
                proof {
                    assert(line@ == l);
                    assert(words@.len() == words_of(l).len());
                    if words@.len() > 0 {
                        assert(strings_view(words@)[0] == words@[0]@);
                    }
                    if words@.len() > 1 {
                        assert(strings_view(words@)[1] == words@[1]@);
                    }
                }
                match keyword_of_words(&words) {
                    None => {
                        k = i;
                    },
                    Some(Keyword::Title) => {
                        match quoted_text(line) {
                            Some(t) => {
                                title = t;
                            },
                            None => {
                                proof {
                                    assert(header_of(ls, i + 1) == Err::<Header, CubeError>(
                                        CubeError::MissingTitleValue,
                                    ));
                                    lemma_error_at(ls, i as int, CubeError::MissingTitleValue);
                                }
                                return Err(CubeError::MissingTitleValue);
                            },
                        }
                        i = i + 1;
                    },
                    Some(Keyword::Size) => {
                        if words.len() > 1 {
                            let c = chars_of(words[1].as_str());
                            size = parse_u8(&c);
                        }
                        i = i + 1;
                    },
                    Some(Keyword::DomainMin) => {
                        match triple_of_words(&words, 1) {
                            Some(t) => {
                                domain_min = t;
                            },
                            None => {
                                proof {
                                    assert(header_of(ls, i + 1) == Err::<Header, CubeError>(
                                        CubeError::InvalidDomainMin,
                                    ));
                                    lemma_error_at(ls, i as int, CubeError::InvalidDomainMin);
                                }
                                return Err(CubeError::InvalidDomainMin);
                            },
                        }
                        i = i + 1;
                    },
                    Some(Keyword::DomainMax) => {
                        match triple_of_words(&words, 1) {
                            Some(t) => {
                                domain_max = t;
                            },
                            None => {
                                proof {
                                    assert(header_of(ls, i + 1) == Err::<Header, CubeError>(
                                        CubeError::InvalidDomainMax,
                                    ));
                                    lemma_error_at(ls, i as int, CubeError::InvalidDomainMax);
                                }
                                return Err(CubeError::InvalidDomainMax);
                            },
                        }
                        i = i + 1;
                    },
                }
            }
        }
        let size = match size {
            Some(s) => s,
            None => {
                return Err(CubeError::InvalidSize);
            },
        };
        if size < 2 {
            return Err(CubeError::InvalidSize);
        }
        if k >= n {
            return Err(CubeError::MissingData);
        }

        // The data lines.
        let mut data: Vec<(String, String, String)> = Vec::new();
        let mut j: usize = k;
        while j < n
            invariant
                n == ls.len() == lines@.len(),
                ls == trimmed_lines(text@),
                forall|m: int| 0 <= m < n ==> #[trigger] lines@[m]@ == ls[m],
                k <= j <= n,
                data@.map_values(|t: (String, String, String)| triple_view(t)) == data_triples(
                    ls,
                    k as int,
                    j as int,
                ),
            decreases n - j,
        {
            let line = &lines[j];
            if !line_is_skipped(line) {
                let words = line_words(line);
                match triple_of_words(&words, 0) {
                    Some(t) => {
                        data.push(t);
                    },
                    None => {},
                }
            }
            j = j + 1;
            assert(data@.map_values(|t: (String, String, String)| triple_view(t)) =~= data_triples(
                ls,
                k as int,
                j as int,
            ));
        }
        proof {
            assert((size as int) * (size as int) <= 255 * 255 && (size as int) * (size as int)
                * (size as int) <= 255 * 255 * 255) by (nonlinear_arith)
                requires
                    size <= 255,
            ;
        }
        let count: usize = (size as usize) * (size as usize) * (size as usize);
        if data.len() != count {
            return Err(CubeError::DataCountMismatch);
        }
        Ok(CubeLut3d { title, size, domain_min, domain_max, data })
    }
}

proof fn lemma_digit_char(d: int)
    requires
        0 <= d < 10,
    ensures
        is_digit(digit_char(d)),
        (digit_char(d) as u32) - ('0' as u32) == d,
{
    let ds = seq!['0', '1', '2', '3', '4', '5', '6', '7', '8', '9'];
    assert(ds[0] == '0' && ds[1] == '1' && ds[2] == '2' && ds[3] == '3' && ds[4] == '4');
    assert(ds[5] == '5' && ds[6] == '6' && ds[7] == '7' && ds[8] == '8' && ds[9] == '9');
}

/// The decimal text of a number reads back as that number.
proof fn lemma_decimal(n: nat)
    ensures
        decimal(n).len() > 0,
        all_digits(decimal(n)),
        digits_value(decimal(n)) == n,
    decreases n,
{
    if n < 10 {
        lemma_digit_char(n as int);
        let s = seq![digit_char(n as int)];
        assert(s.drop_last() =~= Seq::<char>::empty());
        assert(digits_value(Seq::<char>::empty()) == 0);
        assert(s.last() == digit_char(n as int));
        assert(digits_value(s) == 0 * 10 + ((s.last() as u32) - ('0' as u32)) as nat);
    } else {
        lemma_decimal(n / 10);
        lemma_digit_char((n % 10) as int);
        let s = decimal(n);
        assert(s.drop_last() =~= decimal(n / 10));
        assert(s.last() == digit_char((n % 10) as int));
        assert(n == (n / 10) * 10 + n % 10);
        assert(digits_value(s) == digits_value(decimal(n / 10)) * 10 + ((s.last() as u32) - (
        '0' as u32)) as nat);
        assert(all_digits(s)) by {
            assert forall|i: int| 0 <= i < s.len() implies is_digit(s[i]) by {
                if i < s.len() - 1 {
                    assert(s[i] == decimal(n / 10)[i]);
                }
            }
        }
    }
}

proof fn lemma_find_quote_first(l: Seq<char>, from: int, j: int)
    requires
        0 <= from <= j < l.len(),
        l[j] == '"',
        forall|m: int| from <= m < j ==> l[m] != '"',
    ensures
        find_quote(l, from) == j,
    decreases j - from,
{
    if from < j {
        lemma_find_quote_first(l, from + 1, j);
    }
}

/// No keyword is the text of a number.
proof fn lemma_number_not_keyword(w: Seq<char>)
    requires
        is_float_text(w),
    ensures
        keyword_of(w) is None,
{
    lemma_float_text_chars(w);
    if w == seq!['T', 'I', 'T', 'L', 'E'] {
        assert(is_number_char(w[3]));
    } else if w == seq!['L', 'U', 'T', '_', '3', 'D', '_', 'S', 'I', 'Z', 'E'] {
        assert(is_number_char(w[3]));
    } else if w == seq!['D', 'O', 'M', 'A', 'I', 'N', '_', 'M', 'I', 'N'] {
        assert(is_number_char(w[6]));
    } else if w == seq!['D', 'O', 'M', 'A', 'I', 'N', '_', 'M', 'A', 'X'] {
        assert(is_number_char(w[6]));
    }
}

/// What the reading side needs of one written data line.
proof fn lemma_triple_line(t: Triple)
    requires
        is_float_text(t.0),
        is_float_text(t.1),
        is_float_text(t.2),
    ensures
        triple_line(t).len() > 0,
        lacks(triple_line(t), '\n'),
        triple_line(t).last() != '\r',
        trimmed(triple_line(t)) == triple_line(t),
        is_data_line(triple_line(t)),
        triple_at(words_of(triple_line(t)), 0) == Some(t),
{
    lemma_float_text_chars(t.0);
    lemma_float_text_chars(t.1);
    lemma_float_text_chars(t.2);
    let l = triple_line(t);
    let a = t.0.len();
    let b = t.1.len();
    assert forall|i: int| 0 <= i < l.len() implies is_number_char(#[trigger] l[i]) || l[i] == ' ' by {
        if i < a {
            assert(l[i] == t.0[i]);
        } else if i == a {
        } else if i < a + 1 + b {
            assert(l[i] == t.1[i - a - 1]);
        } else if i == a + 1 + b {
        } else {
            assert(l[i] == t.2[i - a - 2 - b]);
        }
    }
    assert(l[0] == t.0[0]);
    assert(l.last() == t.2.last());
    assert(is_number_char(l[0]) && is_number_char(l.last()));
    lemma_trimmed_unchanged(l);
    let ws = seq![t.0, t.1, t.2];
    assert(forall|i: int| 0 <= i < t.0.len() ==> is_number_char(#[trigger] t.0[i]));
    assert(solid(t.0) && solid(t.1) && solid(t.2));
    reveal_with_fuel(join_words, 4);
    assert(join_words(ws) =~= l);
    lemma_words_of_join(ws);
    lemma_number_not_keyword(t.0);
}

/// The texts of a document that `write` and `from_text` carry through
/// unchanged: a size of at least 2 with as many data points as its cube,
/// the default domain, a title without double quotes or line breaks, and
/// data points that are all numbers.
pub open spec fn is_writable(d: CubeDoc) -> bool {
    &&& 2 <= d.size
    &&& d.data.len() == d.size * d.size * d.size
    &&& d.domain_min == zeros()
    &&& d.domain_max == ones()
    &&& lacks(d.title, '"')
    &&& lacks(d.title, '\n')
    &&& forall|i: int|
        0 <= i < d.data.len() ==> is_float_text(#[trigger] d.data[i].0) && is_float_text(
            d.data[i].1,
        ) && is_float_text(d.data[i].2)
}

/// The lines of the written header hold no line break, end in no `\r`, and
/// are their own trimmed form.
#[verifier::rlimit(60)]
proof fn lemma_header_shape(d: CubeDoc)
    requires
        is_writable(d),
    ensures
        forall|i: int|
            0 <= i < 11 ==> lacks(#[trigger] header_lines(d)[i], '\n') && (header_lines(d)[i].len()
                == 0 || header_lines(d)[i].last() != '\r') && trimmed(header_lines(d)[i])
                == header_lines(d)[i],
{
    let h = header_lines(d);
    reveal_strlit("#Created by: smush_lut.exe");
    reveal_strlit("TITLE \"");
    reveal_strlit("\"");
    reveal_strlit("#LUT Size");
    reveal_strlit("LUT_3D_SIZE ");
    reveal_strlit("#data domain");
    reveal_strlit("DOMAIN_MIN 0.0 0.0 0.0");
    reveal_strlit("DOMAIN_MAX 1.0 1.0 1.0");
    reveal_strlit("#LUT data points");
    lemma_decimal(d.size as nat);
    let dec = decimal(d.size as nat);
    let t = h[1];
    assert(t[0] == 'T' && t.last() == '"');
    assert forall|i: int| 0 <= i < t.len() implies t[i] != '\n' by {
        if 7 <= i < 7 + d.title.len() {
            assert(t[i] == d.title[i - 7]);
        }
    }
    let z = h[4];
    assert(z.last() == dec.last());
    assert(is_digit(dec[dec.len() - 1]));
    assert forall|i: int| 0 <= i < z.len() implies z[i] != '\n' by {
        if 12 <= i {
            assert(z[i] == dec[i - 12]);
            assert(is_digit(dec[i - 12]));
        }
    }
    assert forall|i: int| 0 <= i < 11 implies lacks(#[trigger] h[i], '\n') && (h[i].len() == 0
        || h[i].last() != '\r') && trimmed(h[i]) == h[i] by {
        lemma_trimmed_unchanged(h[i]);
    }
}

/// A number `d.0` such as `0.0` is the text of a number.
proof fn lemma_point_zero(d: char)
    requires
        is_digit(d),
    ensures
        is_float_text(seq![d, '.', '0']),
        solid(seq![d, '.', '0']),
        seq![d, '.', '0'].len() > 0,
{
    let u = seq![d, '.', '0'];
    assert(crate::text::unsigned_part(u) == u);
    assert(is_digit(u[0]));
    assert(is_mantissa(u));
}

/// Reading the written header gives its title, size and default domain, and
/// none of its lines is a data line.
#[verifier::rlimit(60)]
proof fn lemma_header_read(d: CubeDoc)
    requires
        is_writable(d),
    ensures
        forall|j: int| 0 <= j < 11 ==> !is_data_line(#[trigger] cube_lines(d)[j]),
        header_of(cube_lines(d), 11) == Ok::<Header, CubeError>(
            Header { title: d.title, size: Some(d.size), domain_min: zeros(), domain_max: ones() },
        ),
{
    let ls = cube_lines(d);
    let h = header_lines(d);
    assert forall|j: int| 0 <= j < 11 implies ls[j] == h[j] by {}
    reveal_strlit("#Created by: smush_lut.exe");
    reveal_strlit("TITLE \"");
    reveal_strlit("\"");
    reveal_strlit("#LUT Size");
    reveal_strlit("LUT_3D_SIZE ");
    reveal_strlit("#data domain");
    reveal_strlit("DOMAIN_MIN 0.0 0.0 0.0");
    reveal_strlit("DOMAIN_MAX 1.0 1.0 1.0");
    reveal_strlit("#LUT data points");
    reveal_with_fuel(join_words, 5);
    let kt = seq!['T', 'I', 'T', 'L', 'E'];
    let ks = seq!['L', 'U', 'T', '_', '3', 'D', '_', 'S', 'I', 'Z', 'E'];
    let kmin = seq!['D', 'O', 'M', 'A', 'I', 'N', '_', 'M', 'I', 'N'];
    let kmax = seq!['D', 'O', 'M', 'A', 'I', 'N', '_', 'M', 'A', 'X'];
    let z = seq!['0', '.', '0'];
    let o = seq!['1', '.', '0'];
    lemma_point_zero('0');
    lemma_point_zero('1');
    assert(solid(kt) && solid(ks) && solid(kmin) && solid(kmax));

    // The title line.
    let lt = h[1];
    let rest = seq!['"'] + d.title + seq!['"'];
    assert(lt =~= kt + seq![' '] + rest);
    crate::lines::lemma_words_cons(kt, rest);
    let tl = d.title.len() as int;
    lemma_find_quote_first(lt, 0, 6);
    assert forall|m: int| 7 <= m < 7 + tl implies lt[m] != '"' by {
        assert(lt[m] == d.title[m - 7]);
    }
    lemma_find_quote_first(lt, 7, 7 + tl);
    assert(lt.subrange(7, 7 + tl) =~= d.title);
    assert(quoted(lt) == Some(d.title));
    assert(line_keyword(lt) == Some(Keyword::Title));

    // The size line.
    lemma_decimal(d.size as nat);
    let dec = decimal(d.size as nat);
    let lz = h[4];
    assert(lz =~= ks + seq![' '] + dec);
    assert(solid(dec)) by {
        assert forall|i: int| 0 <= i < dec.len() implies !is_whitespace(dec[i]) by {
            assert(is_digit(dec[i]));
        }
    }
    crate::lines::lemma_words_cons(ks, dec);
    lemma_words_of_join(seq![dec]);
    assert(words_of(lz) =~= seq![ks, dec]);
    assert(without_plus(dec) == dec) by {
        assert(is_digit(dec[0]));
    }
    assert(u8_of_text(dec) == Some(d.size));
    assert(line_keyword(lz) == Some(Keyword::Size));

    // The domain lines.
    let lmin = h[7];
    let lmax = h[8];
    let wmin = seq![kmin, z, z, z];
    let wmax = seq![kmax, o, o, o];
    assert(join_words(wmin) =~= lmin);
    assert(join_words(wmax) =~= lmax);
    lemma_words_of_join(wmin);
    lemma_words_of_join(wmax);
    assert(triple_at(wmin, 1) == Some(zeros()));
    assert(triple_at(wmax, 1) == Some(ones()));
    assert(line_keyword(lmin) == Some(Keyword::DomainMin));
    assert(line_keyword(lmax) == Some(Keyword::DomainMax));

    assert(is_skipped(ls[0]) && is_skipped(ls[2]) && is_skipped(ls[3]) && is_skipped(ls[5]));
    assert(is_skipped(ls[6]) && is_skipped(ls[9]) && is_skipped(ls[10]));
    let h0 = default_header();
    let h2 = Header { title: d.title, ..h0 };
    let h5 = Header { size: Some(d.size), ..h2 };
    let h8 = Header { domain_min: zeros(), ..h5 };
    let h9 = Header { domain_max: ones(), ..h8 };
    assert(header_of(ls, 0) == Ok::<Header, CubeError>(h0));
    assert(header_of(ls, 1) == Ok::<Header, CubeError>(h0));
    assert(header_of(ls, 2) == Ok::<Header, CubeError>(h2));
    assert(header_of(ls, 3) == Ok::<Header, CubeError>(h2));
    assert(header_of(ls, 4) == Ok::<Header, CubeError>(h2));
    assert(header_of(ls, 5) == Ok::<Header, CubeError>(h5));
    assert(header_of(ls, 6) == Ok::<Header, CubeError>(h5));
    assert(header_of(ls, 7) == Ok::<Header, CubeError>(h5));
    assert(header_of(ls, 8) == Ok::<Header, CubeError>(h8));
    assert(header_of(ls, 9) == Ok::<Header, CubeError>(h9));
    assert(header_of(ls, 10) == Ok::<Header, CubeError>(h9));
    assert(header_of(ls, 11) == Ok::<Header, CubeError>(h9));
}

proof fn lemma_data_lines_read(d: CubeDoc, m: int)
    requires
        is_writable(d),
        0 <= m <= d.data.len(),
    ensures
        data_triples(cube_lines(d), 11, 11 + m) == d.data.take(m),
    decreases m,
{
    let ls = cube_lines(d);
    if m > 0 {
        lemma_data_lines_read(d, m - 1);
        let t = d.data[m - 1];
        assert(ls[11 + m - 1] == triple_line(t));
        assert(is_float_text(d.data[m - 1].0));
        lemma_triple_line(t);
        assert(d.data.take(m) =~= d.data.take(m - 1).push(t));
    } else {
        assert(d.data.take(0) =~= Seq::<Triple>::empty());
    }
}

/// Reading what `write` wrote gives back the document: its title, size,
/// default domain and data points, in order.
#[verifier::rlimit(60)]
pub proof fn lemma_write_then_read(d: CubeDoc)
    requires
        is_writable(d),
    ensures
        doc_of_text(cube_text(d)) == Ok::<CubeDoc, CubeError>(d),
{
    let ls = cube_lines(d);
    let h = header_lines(d);
    let n = d.data.len() as int;
    assert(ls.len() == 11 + n);
    lemma_header_shape(d);
    lemma_header_read(d);
    assert forall|j: int| 0 <= j < n implies #[trigger] ls[11 + j] == triple_line(d.data[j]) && lacks(
        ls[11 + j],
        '\n',
    ) && ls[11 + j].len() > 0 && ls[11 + j].last() != '\r' && trimmed(ls[11 + j]) == ls[11 + j]
        && is_data_line(ls[11 + j]) by {
        assert(is_float_text(d.data[j].0));
        lemma_triple_line(d.data[j]);
    }
    assert forall|i: int| 0 <= i < ls.len() implies lacks(#[trigger] ls[i], '\n') && (
    ls[i].len() == 0 || ls[i].last() != '\r') && trimmed(ls[i]) == ls[i] by {
        if i < 11 {
            assert(ls[i] == h[i]);
        } else {
            assert(ls[11 + (i - 11)] == ls[i]);
        }
    }
    lemma_lines_of_join(ls);
    assert(trimmed_lines(cube_text(d)) =~= ls);

    // The data starts right after the header.
    assert(d.size * d.size * d.size >= 8) by (nonlinear_arith)
        requires
            d.size >= 2,
    ;
    assert(is_data_line(ls[11int + 0]));
    assert(data_start(ls, 11) == 11);
    assert(data_start(ls, 10) == 11);
    assert(data_start(ls, 9) == 11);
    assert(data_start(ls, 8) == 11);
    assert(data_start(ls, 7) == 11);
    assert(data_start(ls, 6) == 11);
    assert(data_start(ls, 5) == 11);
    assert(data_start(ls, 4) == 11);
    assert(data_start(ls, 3) == 11);
    assert(data_start(ls, 2) == 11);
    assert(data_start(ls, 1) == 11);
    assert(data_start(ls, 0) == 11);

    lemma_data_lines_read(d, n);
    assert(d.data.take(n) =~= d.data);
    assert(ls.len() == 11 + n);
    assert(data_triples(ls, 11, ls.len() as int) == d.data);
}

} // verus!
