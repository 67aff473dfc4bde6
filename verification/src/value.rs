//! The dynamically typed value tree, and how a text is read into it.

use crate::error::{DeserError, DeserErrorView};
use crate::pattern::{regex_split, split, COMMAS};
use crate::text::{
    chars_of, decimal_i32, decimal_text, lemma_decimal_of_text, lemma_decimal_text_edges,
    lemma_trimmed_identity, lemma_trimmed_len, parse_i32, starts_with, trim, trimmed,
};
use crate::tile::{cell_of_code, TileCell};
use vstd::prelude::*;
use vstd::string::*;

verus! {

/// A value of the dialect.
#[derive(Debug)]
pub enum LingoData {
    /// A whole number.
    Number(i32),
    /// A text, as it stood between its quotes.
    String(String),
    /// A list of values.
    Array(Vec<Box<LingoData>>),
    /// A point: its coordinates.
    Point(Vec<i32>),
    /// A text that is none of these, kept as it was written.
    InvalidOrNull(String),
}

/// A `LingoData` as a mathematical value.
pub enum LingoValue {
    Number(i32),
    String(Seq<char>),
    Array(Seq<LingoValue>),
    Point(Seq<i32>),
    InvalidOrNull(Seq<char>),
}

/// The value that `data` stands for.
pub open spec fn value_of(data: LingoData) -> LingoValue
    decreases data,
{
    match data {
        LingoData::Number(n) => LingoValue::Number(n),
        LingoData::String(s) => LingoValue::String(s@),
        LingoData::Array(items) => LingoValue::Array(
            Seq::new(
                items@.len(),
                |i: int|
                    if 0 <= i < items@.len() {
                        value_of(*items@[i])
                    } else {
                        LingoValue::Number(0)
                    },
            ),
        ),
        LingoData::Point(p) => LingoValue::Point(p@),
        LingoData::InvalidOrNull(s) => LingoValue::InvalidOrNull(s@),
    }
}

impl View for LingoData {
    type V = LingoValue;

    open spec fn view(&self) -> LingoValue {
        value_of(*self)
    }
}

impl DeepView for LingoData {
    type V = LingoValue;

    open spec fn deep_view(&self) -> LingoValue {
        self@
    }
}

impl Clone for LingoData {
    /// A copy of the same shape with equal contents.
    #[verifier::loop_isolation(false)]
    fn clone(&self) -> (r: Self)
        ensures
            r@ == self@,
        decreases self,
    {
        match self {
            LingoData::Number(n) => LingoData::Number(*n),
            LingoData::String(s) => LingoData::String(s.clone()),
            LingoData::Array(items) => {
                let mut out: Vec<Box<LingoData>> = Vec::new();
                let mut i: usize = 0;
                while i < items.len()
                    invariant
                        i <= items.len(),
                        out.len() == i,
                        forall|j: int| 0 <= j < i ==> out@[j]@ == items@[j]@,
                    decreases items.len() - i,
                {
                    let item: &LingoData = &items[i];
                    out.push(Box::new(item.clone()));
                    i += 1;
                }
                let r = LingoData::Array(out);
                assert(r@->Array_0 =~= self@->Array_0);
                r
            },
            LingoData::Point(p) => {
                let q = p.clone();
                assert(q@ =~= p@);
                LingoData::Point(q)
            },
            LingoData::InvalidOrNull(s) => LingoData::InvalidOrNull(s.clone()),
        }
    }
}

impl PartialEq for LingoData {
    /// Two values are equal where they are of the same variant and hold
    /// equal contents, lists item by item.
    #[verifier::loop_isolation(false)]
    fn eq(&self, other: &Self) -> (r: bool)
        decreases self,
    {
        match self {
            LingoData::Number(a) => match other {
                LingoData::Number(b) => *a == *b,
                _ => false,
            },
            LingoData::String(a) => match other {
                LingoData::String(b) => *a == *b,
                _ => false,
            },
            LingoData::Array(a) => match other {
                LingoData::Array(b) => {
                    if a.len() != b.len() {
                        assert(self@->Array_0.len() != other@->Array_0.len());
                        return false;
                    }
                    let mut i: usize = 0;
                    while i < a.len()
                        invariant
                            i <= a.len(),
                            forall|j: int| 0 <= j < i ==> a@[j]@ == b@[j]@,
                        decreases a.len() - i,
                    {
                        let x: &LingoData = &a[i];
                        let y: &LingoData = &b[i];
                        if !x.eq(y) {
                            assert(self@->Array_0[i as int] == x@);
                            assert(other@->Array_0[i as int] == y@);
                            return false;
                        }
                        i += 1;
                    }
                    assert(self@->Array_0 =~= other@->Array_0);
                    true
                },
                _ => false,
            },
            LingoData::Point(a) => match other {
                LingoData::Point(b) => {
                    let r = a == b;
                    assert(r == (a@ =~= b@));
                    r
                },
                _ => false,
            },
            LingoData::InvalidOrNull(a) => match other {
                LingoData::InvalidOrNull(b) => *a == *b,
                _ => false,
            },
        }
    }
}

impl vstd::std_specs::cmp::PartialEqSpecImpl for LingoData {
    open spec fn obeys_eq_spec() -> bool {
        true
    }

    open spec fn eq_spec(&self, other: &Self) -> bool {
        self@ == other@
    }
}

/// How `{:?}` renders a value: the text that the derived `Debug` writes.
pub uninterp spec fn debug_text(value: LingoValue) -> Seq<char>;

/// Renders `value` with `format!` and `{:?}`, through the `Debug` that the
/// compiler derives for `LingoData`. The text depends on the value alone and
/// is the one that `debug_text` names.
#[verifier::external_body]
pub(crate) fn render(value: &LingoData) -> (r: String)
    ensures
        r@ == debug_text(value@),
{
    format!("{:?}", value)
}

/// The length of the longest of `parts`.
pub open spec fn longest(parts: Seq<Seq<char>>) -> nat
    decreases parts.len(),
{
    if parts.len() == 0 {
        0
    } else {
        let rest = longest(parts.drop_last());
        if parts.last().len() > rest {
            parts.last().len()
        } else {
            rest
        }
    }
}

/// No part is longer than the longest.
pub proof fn lemma_longest(parts: Seq<Seq<char>>, i: int)
    requires
        0 <= i < parts.len(),
    ensures
        parts[i].len() <= longest(parts),
    decreases parts.len(),
{
    if i < parts.len() - 1 {
        lemma_longest(parts.drop_last(), i);
    }
}

/// Where every part has at most `bound` characters, so has the longest.
pub proof fn lemma_longest_bound(parts: Seq<Seq<char>>, bound: nat)
    requires
        forall|i: int| 0 <= i < parts.len() ==> (#[trigger] parts[i]).len() <= bound,
    ensures
        longest(parts) <= bound,
    decreases parts.len(),
{
    if parts.len() > 0 {
        let front = parts.drop_last();
        assert forall|i: int| 0 <= i < front.len() implies (#[trigger] front[i]).len() <= bound by {
            assert(front[i] == parts[i]);
        }
        lemma_longest_bound(front, bound);
    }
}

/// Whether `t` is written as a list: `[`, then anything, then `]`.
pub open spec fn is_list_text(t: Seq<char>) -> bool {
    t.len() >= 2 && t[0] == '[' && t.last() == ']'
}

/// Whether `t` is written as a point: `point(`, then anything, then `)`.
pub open spec fn is_point_text(t: Seq<char>) -> bool {
    t.len() >= 7 && "point("@.is_prefix_of(t) && t.last() == ')'
}

/// Whether `t` is written as a text: `"`, then anything, then `"`.
pub open spec fn is_quoted_text(t: Seq<char>) -> bool {
    t.len() >= 2 && t[0] == '"' && t.last() == '"'
}

/// The value that `text` writes. White space around it does not count. A list
/// is cut at its commas, nested or not, and holds the value of each part; a
/// point is cut in the same way and holds the parts that write an `i32`; a
/// quoted text holds what stands between the quotes, as it stands; a decimal
/// `i32` is a number. Any other text is kept as it is, as `InvalidOrNull`,
/// and so is a list or a point that cannot be cut: every text has a value.
///
/// The parts of a list are cut from what its brackets hold, so each is
/// shorter than the text. The definition asks for that before it reads them,
/// which makes it well founded; parts that a search gave always pass.
pub open spec fn parse_text(text: Seq<char>) -> LingoValue
    decreases text.len(), 1int,
{
    let t = trimmed(text);
    if is_list_text(t) {
        match regex_split(COMMAS@, t.subrange(1, t.len() - 1)) {
            Some(parts) if longest(parts) < text.len() => LingoValue::Array(parsed_parts(parts)),
            _ => LingoValue::InvalidOrNull(t),
        }
    } else if is_point_text(t) {
        match regex_split(COMMAS@, t.subrange(6, t.len() - 1)) {
            Some(parts) => LingoValue::Point(numbers_of_parts(parts)),
            None => LingoValue::InvalidOrNull(t),
        }
    } else if is_quoted_text(t) {
        LingoValue::String(t.subrange(1, t.len() - 1))
    } else {
        match decimal_i32(t) {
            Some(n) => LingoValue::Number(n),
            None => LingoValue::InvalidOrNull(t),
        }
    }
}

/// The values that the parts write, in order.
pub open spec fn parsed_parts(parts: Seq<Seq<char>>) -> Seq<LingoValue>
    decreases longest(parts), 2int, parts.len(),
{
    if parts.len() == 0 {
        Seq::empty()
    } else {
        parsed_parts(parts.drop_last()).push(parse_text(parts.last()))
    }
}

/// The numbers that the parts write, in order, white space around each left
/// aside, without the parts that write no `i32`.
pub open spec fn numbers_of_parts(parts: Seq<Seq<char>>) -> Seq<i32>
    decreases parts.len(),
{
    if parts.len() == 0 {
        Seq::empty()
    } else {
        let rest = numbers_of_parts(parts.drop_last());
        match decimal_i32(trimmed(parts.last())) {
            Some(n) => rest.push(n),
            None => rest,
        }
    }
}

/// The texts among `items`, in order.
pub open spec fn texts_in(items: Seq<LingoValue>) -> Seq<Seq<char>>
    decreases items.len(),
{
    if items.len() == 0 {
        Seq::empty()
    } else {
        let rest = texts_in(items.drop_last());
        match items.last() {
            LingoValue::String(s) => rest.push(s),
            _ => rest,
        }
    }
}

/// The numbers among `items`, in order.
pub open spec fn numbers_in(items: Seq<LingoValue>) -> Seq<i32>
    decreases items.len(),
{
    if items.len() == 0 {
        Seq::empty()
    } else {
        let rest = numbers_in(items.drop_last());
        match items.last() {
            LingoValue::Number(n) => rest.push(n),
            _ => rest,
        }
    }
}

/// The cells that the codes stand for, in order, without the codes that stand
/// for none.
pub open spec fn cells_of(codes: Seq<i32>) -> Seq<TileCell>
    decreases codes.len(),
{
    if codes.len() == 0 {
        Seq::empty()
    } else {
        let rest = cells_of(codes.drop_last());
        match cell_of_code(codes.last()) {
            Some(cell) => rest.push(cell),
            None => rest,
        }
    }
}

/// `value`, but for the number 0, which reads as the unparsed text `NULL`.
pub open spec fn null_if_zero(value: LingoValue) -> LingoValue {
    if value == LingoValue::Number(0) {
        LingoValue::InvalidOrNull("NULL"@)
    } else {
        value
    }
}

/// The decimal text of a number reads as that number.
pub proof fn lemma_parse_number(n: i32)
    ensures
        parse_text(decimal_text(n as int)) == LingoValue::Number(n),
{
    let t = decimal_text(n as int);
    lemma_decimal_text_edges(n as int);
    lemma_trimmed_identity(t);
    lemma_decimal_of_text(n as int);
    reveal_strlit("point(");
    if "point("@.is_prefix_of(t) {
        assert(t[0] == "point("@[0]);
    }
}

/// A text between two quotes reads as that text, whatever it holds.
pub proof fn lemma_parse_quoted(inner: Seq<char>)
    ensures
        parse_text(seq!['"'] + inner + seq!['"']) == LingoValue::String(inner),
{
    let t = seq!['"'] + inner + seq!['"'];
    assert(t[0] == '"');
    assert(t.last() == '"');
    lemma_trimmed_identity(t);
    reveal_strlit("point(");
    if "point("@.is_prefix_of(t) {
        assert(t[0] == "point("@[0]);
    }
    assert(t.subrange(1, t.len() - 1) =~= inner);
}

/// A text that is none of list, point, quoted text and number is kept as
/// it is, white space around it aside.
pub proof fn lemma_parse_unparsed(text: Seq<char>)
    requires
        !is_list_text(trimmed(text)),
        !is_point_text(trimmed(text)),
        !is_quoted_text(trimmed(text)),
        decimal_i32(trimmed(text)) is None,
    ensures
        parse_text(text) == LingoValue::InvalidOrNull(trimmed(text)),
{
}

impl LingoData {
    /// Reads `text` as a value, which never fails. See `parse_text` for the
    /// grammar.
    pub fn parse(text: &str) -> (r: Result<LingoData, DeserError>)
        ensures
            r matches Ok(value) && value@ == parse_text(text@),
        decreases text@.len(), 1int,
    {
        let t = trim(text);
        let chars = chars_of(t);
        let n = chars.len();
        proof {
            lemma_trimmed_len(text@);
            reveal_strlit("point(");
        }
        if n >= 2 && chars[0] == '[' && chars[n - 1] == ']' {
            let inner = t.substring_char(1, n - 1);
            match split(COMMAS, inner) {
                Ok(parts) => {
                    proof {
                        lemma_longest_bound(parts.deep_view(), inner@.len());
                    }
                    Ok(LingoData::array_of(&parts))
                },
                Err(_) => Ok(LingoData::InvalidOrNull(t.to_owned())),
            }
        } else if n >= 7 && starts_with(&chars, "point(") && chars[n - 1] == ')' {
            let inner = t.substring_char(6, n - 1);
            match split(COMMAS, inner) {
                Ok(parts) => Ok(LingoData::point_of(&parts)),
                Err(_) => Ok(LingoData::InvalidOrNull(t.to_owned())),
            }
        } else if n >= 2 && chars[0] == '"' && chars[n - 1] == '"' {
            Ok(LingoData::String(t.substring_char(1, n - 1).to_owned()))
        } else {
            match parse_i32(t) {
                Some(v) => Ok(LingoData::Number(v)),
                None => Ok(LingoData::InvalidOrNull(t.to_owned())),
            }
        }
    }

    /// The list of the values that `parts` write, in order.
    pub fn array_of(parts: &Vec<String>) -> (r: LingoData)
        ensures
            r@ == LingoValue::Array(parsed_parts(parts.deep_view())),
        decreases longest(parts.deep_view()), 2int,
    {
        let mut items: Vec<Box<LingoData>> = Vec::new();
        let ghost texts = parts.deep_view();
        let mut i: usize = 0;
        assert(texts.take(0) =~= Seq::empty());
        assert(LingoData::Array(items)@->Array_0 =~= Seq::empty());
        while i < parts.len()
            invariant
                i <= parts.len(),
                texts == parts.deep_view(),
                LingoData::Array(items)@ == LingoValue::Array(parsed_parts(texts.take(i as int))),
            decreases parts.len() - i,
        {
            proof {
                lemma_longest(texts, i as int);
                assert(texts.take(i + 1).drop_last() =~= texts.take(i as int));
                assert(texts.take(i + 1).last() == parts@[i as int]@);
            }
            let ghost before = LingoData::Array(items)@->Array_0;
            match LingoData::parse(parts[i].as_str()) {
                Ok(value) => {
                    let ghost v = value@;
                    items.push(Box::new(value));
                    assert(LingoData::Array(items)@->Array_0 =~= before.push(v));
                },
                Err(_) => {},
            }
            i += 1;
        }
        assert(texts.take(parts.len() as int) =~= texts);
        LingoData::Array(items)
    }

    /// The point of the numbers that `parts` write, in order, without the
    /// parts that write no `i32`.
    pub fn point_of(parts: &Vec<String>) -> (r: LingoData)
        ensures
            r@ == LingoValue::Point(numbers_of_parts(parts.deep_view())),
    {
        let mut numbers: Vec<i32> = Vec::new();
        let ghost texts = parts.deep_view();
        let mut i: usize = 0;
        assert(texts.take(0) =~= Seq::empty());
        while i < parts.len()
            invariant
                i <= parts.len(),
                texts == parts.deep_view(),
                numbers@ == numbers_of_parts(texts.take(i as int)),
            decreases parts.len() - i,
        {
            proof {
                assert(texts.take(i + 1).drop_last() =~= texts.take(i as int));
                assert(texts.take(i + 1).last() == parts@[i as int]@);
            }
            match parse_i32(trim(parts[i].as_str())) {
                Some(n) => {
                    numbers.push(n);
                },
                None => {},
            }
            i += 1;
        }
        assert(texts.take(parts.len() as int) =~= texts);
        LingoData::Point(numbers)
    }

    /// The number, where the value is one.
    pub fn as_number(&self) -> (r: Result<i32, DeserError>)
        ensures
            match r {
                Ok(n) => self@ == LingoValue::Number(n),
                Err(e) => !(self@ is Number) && e@ == DeserErrorView::DataConvertFailed(
                    debug_text(self@) + " not a number"@,
                ),
            },
    {
        match self {
            LingoData::Number(n) => Ok(*n),
            _ => Err(DeserError::DataConvertFailed(render(self).concat(" not a number"))),
        }
    }

    /// The text, where the value is one.
    pub fn as_string(&self) -> (r: Result<String, DeserError>)
        ensures
            match r {
                Ok(s) => self@ == LingoValue::String(s@),
                Err(e) => !(self@ is String) && e@ == DeserErrorView::DataConvertFailed(
                    debug_text(self@) + " not a string"@,
                ),
            },
    {
        match self {
            LingoData::String(s) => Ok(s.clone()),
            _ => Err(DeserError::DataConvertFailed(render(self).concat(" not a string"))),
        }
    }

    /// The texts among the items, where the value is a list.
    pub fn as_string_array(&self) -> (r: Result<Vec<String>, DeserError>)
        ensures
            match r {
                Ok(texts) => self@ is Array && texts.deep_view() == texts_in(self@->Array_0),
                Err(e) => !(self@ is Array) && e@ == DeserErrorView::DataConvertFailed(
                    "could not build StringArray from "@ + debug_text(self@),
                ),
            },
    {
        match self {
            LingoData::Array(items) => {
                let mut out: Vec<String> = Vec::new();
                let ghost values = self@->Array_0;
                let mut i: usize = 0;
                assert(values.take(0) =~= Seq::empty());
                while i < items.len()
                    invariant
                        i <= items.len(),
                        values.len() == items.len(),
                        forall|j: int| 0 <= j < items.len() ==> values[j] == items@[j]@,
                        out.deep_view() == texts_in(values.take(i as int)),
                    decreases items.len() - i,
                {
                    proof {
                        assert(values.take(i + 1).drop_last() =~= values.take(i as int));
                        assert(values.take(i + 1).last() == items@[i as int]@);
                    }
                    let item: &LingoData = &items[i];
                    let ghost before = out.deep_view();
                    match item {
                        LingoData::String(s) => {
                            out.push(s.clone());
                            assert(out.deep_view() =~= before.push(s@));
                        },
                        _ => {},
                    }
                    i += 1;
                }
                assert(values.take(items.len() as int) =~= values);
                Ok(out)
            },
            _ => Err(
                DeserError::DataConvertFailed(
                    String::from_str("could not build StringArray from ").concat(
                        render(self).as_str(),
                    ),
                ),
            ),
        }
    }

    /// The numbers among the items, where the value is a list.
    pub fn as_number_array(&self) -> (r: Result<Vec<i32>, DeserError>)
        ensures
            match r {
                Ok(numbers) => self@ is Array && numbers@ == numbers_in(self@->Array_0),
                Err(e) => !(self@ is Array) && e@ == DeserErrorView::DataConvertFailed(
                    "could not build NumberArray from "@ + debug_text(self@),
                ),
            },
    {
        match self {
            LingoData::Array(items) => {
                let mut out: Vec<i32> = Vec::new();
                let ghost values = self@->Array_0;
                let mut i: usize = 0;
                assert(values.take(0) =~= Seq::empty());
                while i < items.len()
                    invariant
                        i <= items.len(),
                        values.len() == items.len(),
                        forall|j: int| 0 <= j < items.len() ==> values[j] == items@[j]@,
                        out@ == numbers_in(values.take(i as int)),
                    decreases items.len() - i,
                {
                    proof {
                        assert(values.take(i + 1).drop_last() =~= values.take(i as int));
                        assert(values.take(i + 1).last() == items@[i as int]@);
                    }
                    let item: &LingoData = &items[i];
                    match item {
                        LingoData::Number(n) => {
                            out.push(*n);
                        },
                        _ => {},
                    }
                    i += 1;
                }
                assert(values.take(items.len() as int) =~= values);
                Ok(out)
            },
            _ => Err(
                DeserError::DataConvertFailed(
                    String::from_str("could not build NumberArray from ").concat(
                        render(self).as_str(),
                    ),
                ),
            ),
        }
    }

    /// The cells that the numbers among the items stand for, where the value
    /// is a list. A number that stands for no cell is left out.
    pub fn as_tilecell_array(&self) -> (r: Result<Vec<TileCell>, DeserError>)
        ensures
            match r {
                Ok(cells) => self@ is Array && cells@ == cells_of(numbers_in(self@->Array_0)),
                Err(e) => !(self@ is Array) && e@ == DeserErrorView::DataConvertFailed(
                    "could not build tilecellArray from "@ + debug_text(self@),
                ),
            },
    {
        match self.as_number_array() {
            Ok(codes) => {
                let mut out: Vec<TileCell> = Vec::new();
                let mut i: usize = 0;
                assert(codes@.take(0) =~= Seq::empty());
                while i < codes.len()
                    invariant
                        i <= codes.len(),
                        out@ == cells_of(codes@.take(i as int)),
                    decreases codes.len() - i,
                {
                    proof {
                        assert(codes@.take(i + 1).drop_last() =~= codes@.take(i as int));
                        assert(codes@.take(i + 1).last() == codes@[i as int]);
                    }
                    match TileCell::from_number(codes[i]) {
                        Ok(cell) => {
                            out.push(cell);
                        },
                        Err(_) => {},
                    }
                    i += 1;
                }
                assert(codes@.take(codes.len() as int) =~= codes@);
                Ok(out)
            },
            Err(_) => Err(
                DeserError::DataConvertFailed(
                    String::from_str("could not build tilecellArray from ").concat(
                        render(self).as_str(),
                    ),
                ),
            ),
        }
    }

    /// The value itself, but for the number 0, which becomes the unparsed
    /// text `NULL`.
    pub fn as_null_if_zero(self) -> (r: LingoData)
        ensures
            r@ == null_if_zero(self@),
    {
        match self {
            LingoData::Number(0) => LingoData::InvalidOrNull(String::from_str("NULL")),
            other => other,
        }
    }
}

} // verus!
