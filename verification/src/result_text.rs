//! Preparing a result entry's bindings and template: each binding is
//! parsed and type-checked against `value` and the bindings before it, and
//! the template is split at strict `{= ... }` markers, whose expressions
//! are checked against every binding and may not roll dice.

use vstd::prelude::*;
use crate::checker::{check, has_dice, lemma_checked_without_rolls_has_no_dice, lookup, type_of, typed_as, TypeScope, ValueType};
use crate::expression::{
    is_ascii_alpha, is_ascii_digit, node_view, parse, parse_spec, utf8_len, utf8_total, Expression,
    Node,
};
use crate::models::{ResultBinding, ResultEntry};
use crate::text::{chars_of, decimal, push_str, push_u64, string_from_chars, string_from_range};

verus! {

broadcast use vstd::string::group_string_axioms;

/// Most bindings one result entry may declare.
pub const MAX_BINDINGS_PER_RESULT: usize = 128;

/// Largest template, in UTF-8 bytes, of an entry that declares bindings or
/// uses strict markers.
pub const MAX_TEMPLATE_BYTES: usize = 65536;

/// Why a result entry could not be prepared: where (`let[i].name`, `let`
/// or `text`), at which offset there, and why.
#[derive(Debug, Clone, PartialEq)]
pub struct ResultTextError {
    pub location: String,
    pub offset: usize,
    pub reason: String,
}

/// A preparation failure as values.
pub struct TextFailure {
    pub location: Seq<char>,
    pub offset: int,
    pub reason: Seq<char>,
}

impl View for ResultTextError {
    type V = TextFailure;

    open spec fn view(&self) -> TextFailure {
        TextFailure { location: self.location@, offset: self.offset as int, reason: self.reason@ }
    }
}

pub open spec fn text_failure(location: Seq<char>, offset: int, reason: Seq<char>) -> TextFailure {
    TextFailure { location, offset, reason }
}

/// A binding that parsed and checked.
#[derive(Debug, PartialEq)]
pub struct CheckedBinding {
    pub name: String,
    pub source: String,
    pub expression: Expression,
    pub value_type: ValueType,
}

/// A part of a template: text kept as it is, or a strict expression.
#[derive(Debug, PartialEq)]
pub enum Segment {
    Literal(String),
    Expression { source: String, expression: Expression },
}

/// A result entry ready to render.
#[derive(Debug, PartialEq)]
pub struct PreparedResult {
    pub bindings: Vec<CheckedBinding>,
    pub segments: Vec<Segment>,
}

/// A checked binding as values.
pub struct BindView {
    pub name: Seq<char>,
    pub source: Seq<char>,
    pub node: Node,
    pub value_type: ValueType,
}

/// A template segment as values.
pub enum SegView {
    Literal(Seq<char>),
    Expression(Seq<char>, Node),
}

pub open spec fn bind_view(b: CheckedBinding) -> BindView {
    BindView {
        name: b.name@,
        source: b.source@,
        node: node_view(b.expression.root),
        value_type: b.value_type,
    }
}

pub open spec fn seg_view(s: Segment) -> SegView {
    match s {
        Segment::Literal(t) => SegView::Literal(t@),
        Segment::Expression { source, expression } => SegView::Expression(source@, node_view(expression.root)),
    }
}

pub open spec fn binds_view(bs: Seq<CheckedBinding>) -> Seq<BindView> {
    bs.map_values(|b: CheckedBinding| bind_view(b))
}

pub open spec fn segs_view(ss: Seq<Segment>) -> Seq<SegView> {
    ss.map_values(|s: Segment| seg_view(s))
}

/// A binding name: an ASCII letter or `_`, then ASCII letters, digits
/// and `_`.
pub open spec fn binding_name_ok(name: Seq<char>) -> bool {
    &&& name.len() > 0
    &&& (is_ascii_alpha(name[0]) || name[0] == '_')
    &&& forall|i: int|
        0 <= i < name.len() ==> (is_ascii_alpha(#[trigger] name[i]) || is_ascii_digit(name[i]) || name[i]
            == '_')
}

/// Names no binding may take: the built-in `value` and the words of the
/// expression language.
pub open spec fn reserved(name: Seq<char>) -> bool {
    name == "value"@ || name == "roll"@ || name == "if"@ || name == "then"@ || name == "else"@ || name
        == "true"@ || name == "false"@
}

/// Whether `name` is a valid binding name.
pub fn is_binding_name(name: &str) -> (r: bool)
    ensures
        r == binding_name_ok(name@),
{
    let cs = chars_of(name);
    if cs.len() == 0 {
        return false;
    }
    let first = cs[0];
    if !(('a' <= first && first <= 'z') || ('A' <= first && first <= 'Z') || first == '_') {
        return false;
    }
    let mut i: usize = 0;
    while i < cs.len()
        invariant
            cs@ == name@,
            i <= cs@.len(),
            forall|k: int|
                0 <= k < i ==> (is_ascii_alpha(#[trigger] cs@[k]) || is_ascii_digit(cs@[k]) || cs@[k]
                    == '_'),
        decreases cs@.len() - i,
    {
        let c = cs[i];
        if !(('a' <= c && c <= 'z') || ('A' <= c && c <= 'Z') || ('0' <= c && c <= '9') || c == '_') {
            return false;
        }
        i = i + 1;
    }
    true
}

fn is_reserved(name: &str) -> (r: bool)
    ensures
        r == reserved(name@),
{
    crate::text::str_equal(name, "value") || crate::text::str_equal(name, "roll")
        || crate::text::str_equal(name, "if") || crate::text::str_equal(name, "then")
        || crate::text::str_equal(name, "else") || crate::text::str_equal(name, "true")
        || crate::text::str_equal(name, "false")
}

/// Whitespace as Unicode's `White_Space` property has it.
pub open spec fn is_white_space(c: char) -> bool {
    let u = c as u32;
    (0x09 <= u && u <= 0x0D) || u == 0x20 || u == 0x85 || u == 0xA0 || u == 0x1680 || (0x2000 <= u
        && u <= 0x200A) || u == 0x2028 || u == 0x2029 || u == 0x202F || u == 0x205F || u == 0x3000
}

/// Nothing but whitespace.
pub open spec fn blank(s: Seq<char>) -> bool {
    forall|i: int| 0 <= i < s.len() ==> is_white_space(#[trigger] s[i])
}

/// Character `i` of `s` is `c`.
pub open spec fn char_at(s: Seq<char>, i: int, c: char) -> bool {
    0 <= i < s.len() && s[i] == c
}

/// A strict marker `{=` starts somewhere in `s`.
pub open spec fn has_marker(s: Seq<char>) -> bool {
    exists|i: int| #[trigger] char_at(s, i, '{') && char_at(s, i + 1, '=')
}

/// The index of the `}` that closes a strict marker whose expression
/// starts at `i`. Inside a double-quoted string a brace is an ordinary
/// character and a backslash takes the next character with it.
pub open spec fn strict_end(s: Seq<char>, i: int, in_string: bool) -> Option<int>
    decreases s.len() - i,
{
    if i < 0 || i >= s.len() {
        None
    } else if in_string {
        if s[i] == '\\' {
            if i + 1 >= s.len() {
                None
            } else {
                strict_end(s, i + 2, true)
            }
        } else if s[i] == '"' {
            strict_end(s, i + 1, false)
        } else {
            strict_end(s, i + 1, true)
        }
    } else if s[i] == '"' {
        strict_end(s, i + 1, true)
    } else if s[i] == '}' {
        Some(i)
    } else {
        strict_end(s, i + 1, false)
    }
}

/// A template piece before type checking.
#[derive(Debug, Clone, PartialEq)]
pub enum RawSegment {
    Literal(String),
    Strict(String),
}

pub enum RawView {
    Literal(Seq<char>),
    Strict(Seq<char>),
}

pub open spec fn raw_view(r: RawSegment) -> RawView {
    match r {
        RawSegment::Literal(t) => RawView::Literal(t@),
        RawSegment::Strict(t) => RawView::Strict(t@),
    }
}

pub open spec fn raws_view(rs: Seq<RawSegment>) -> Seq<RawView> {
    rs.map_values(|r: RawSegment| raw_view(r))
}

pub open spec fn prepend_raws(pre: Seq<RawView>, r: Result<Seq<RawView>, TextFailure>) -> Result<
    Seq<RawView>,
    TextFailure,
> {
    match r {
        Ok(rest) => Ok(pre + rest),
        Err(e) => Err(e),
    }
}

/// The literal `lit` as segments: none when it is empty.
pub open spec fn flush(lit: Seq<char>) -> Seq<RawView> {
    if lit.len() == 0 {
        Seq::empty()
    } else {
        seq![RawView::Literal(lit)]
    }
}

/// Split the template `s` from character `i` (byte `b`), with `lit` the
/// literal text gathered so far. `{{=` stands for a literal `{=`; `{=`
/// opens a strict expression that runs to its closing brace.
pub open spec fn scan(s: Seq<char>, i: int, b: int, lit: Seq<char>) -> Result<Seq<RawView>, TextFailure>
    decreases s.len() - i,
{
    if i < 0 || i >= s.len() {
        Ok(flush(lit))
    } else if char_at(s, i, '{') && char_at(s, i + 1, '{') && char_at(s, i + 2, '=') {
        scan(s, i + 3, b + 3, lit + seq!['{', '='])
    } else if char_at(s, i, '{') && char_at(s, i + 1, '=') {
        match strict_end(s, i + 2, false) {
            None => Err(text_failure("text"@, b, "unterminated `{=` marker"@)),
            Some(e) => {
                let inner = s.subrange(i + 2, e);
                if blank(inner) {
                    Err(text_failure("text"@, b, "empty `{=` expression"@))
                } else {
                    proof {
                        lemma_strict_end_range(s, i + 2, false);
                    }
                    prepend_raws(
                        flush(lit).push(RawView::Strict(inner)),
                        scan(s, e + 1, b + utf8_total(s.subrange(i, e + 1)), Seq::empty()),
                    )
                }
            },
        }
    } else {
        scan(s, i + 1, b + utf8_len(s[i]), lit.push(s[i]))
    }
}

pub proof fn lemma_strict_end_range(s: Seq<char>, i: int, in_string: bool)
    requires
        0 <= i,
    ensures
        strict_end(s, i, in_string) matches Some(e) ==> i <= e < s.len() && s[e] == '}',
    decreases s.len() - i,
{
    if 0 <= i < s.len() {
        if in_string {
            if s[i] == '\\' {
                if i + 1 < s.len() {
                    lemma_strict_end_range(s, i + 2, true);
                }
            } else if s[i] == '"' {
                lemma_strict_end_range(s, i + 1, false);
            } else {
                lemma_strict_end_range(s, i + 1, true);
            }
        } else if s[i] == '"' {
            lemma_strict_end_range(s, i + 1, true);
        } else if s[i] != '}' {
            lemma_strict_end_range(s, i + 1, false);
        }
    }
}

proof fn lemma_scan_plain(s: Seq<char>, i: int, b: int, lit: Seq<char>)
    requires
        0 <= i <= s.len(),
        forall|x: int| i <= x < s.len() ==> #[trigger] s[x] != '{',
    ensures
        scan(s, i, b, lit) == Ok::<Seq<RawView>, TextFailure>(flush(lit + s.skip(i))),
    decreases s.len() - i,
{
    if i < s.len() {
        assert(!char_at(s, i, '{'));
        lemma_scan_plain(s, i + 1, b + utf8_len(s[i]), lit.push(s[i]));
        assert(lit.push(s[i]) + s.skip(i + 1) =~= lit + s.skip(i));
    } else {
        assert(lit + s.skip(i) =~= lit);
    }
}

/// A law of templates: text without a `{` is kept whole as one literal
/// (and an empty text gives no segment), and `{{=` before such text
/// stands for a literal `{=`.
pub proof fn lemma_plain_template(s: Seq<char>)
    requires
        forall|x: int| 0 <= x < s.len() ==> #[trigger] s[x] != '{',
    ensures
        scan(s, 0, 0, Seq::empty()) == Ok::<Seq<RawView>, TextFailure>(
            if s.len() == 0 { Seq::empty() } else { seq![RawView::Literal(s)] },
        ),
        scan(seq!['{', '{', '='] + s, 0, 0, Seq::empty()) == Ok::<Seq<RawView>, TextFailure>(
            seq![RawView::Literal(seq!['{', '='] + s)],
        ),
{
    lemma_scan_plain(s, 0, 0, Seq::empty());
    assert(Seq::<char>::empty() + s.skip(0) =~= s);
    let t = seq!['{', '{', '='] + s;
    assert(char_at(t, 0, '{') && char_at(t, 1, '{') && char_at(t, 2, '='));
    lemma_scan_plain(t, 3, 3, seq!['{', '=']);
    assert(seq!['{', '='] + t.skip(3) =~= seq!['{', '='] + s);
}

proof fn lemma_strict_end_plain(s: Seq<char>, i: int, e: int)
    requires
        0 <= i <= e < s.len(),
        s[e] == '}',
        forall|x: int| i <= x < e ==> #[trigger] s[x] != '}' && s[x] != '"',
    ensures
        strict_end(s, i, false) == Some(e),
    decreases e - i,
{
    if i < e {
        lemma_strict_end_plain(s, i + 1, e);
    }
}

/// A law of templates: `{=` followed by an expression that holds no
/// brace, no quote and not only whitespace, and by the closing `}`, is
/// one strict segment holding exactly that expression.
pub proof fn lemma_single_marker(expr: Seq<char>)
    requires
        !blank(expr),
        forall|x: int| 0 <= x < expr.len() ==> #[trigger] expr[x] != '}' && expr[x] != '"' && expr[x] != '{',
    ensures
        scan(seq!['{', '='] + expr + seq!['}'], 0, 0, Seq::empty()) == Ok::<Seq<RawView>, TextFailure>(
            seq![RawView::Strict(expr)],
        ),
{
    let s = seq!['{', '='] + expr + seq!['}'];
    let e: int = expr.len() + 2int;
    assert(char_at(s, 0, '{') && char_at(s, 1, '='));
    assert(!char_at(s, 1, '{'));
    assert forall|x: int| 2 <= x < e implies #[trigger] s[x] != '}' && s[x] != '"' by {
        assert(s[x] == expr[x - 2]);
    }
    lemma_strict_end_plain(s, 2, e);
    assert(s.subrange(2, e) =~= expr);
    let rest_b: int = utf8_total(s.subrange(0, e + 1)) as int;
    assert(scan(s, e + 1, rest_b, Seq::empty()) == Ok::<Seq<RawView>, TextFailure>(flush(Seq::<char>::empty())));
    assert(flush(Seq::<char>::empty()).push(RawView::Strict(expr)) + flush(Seq::<char>::empty()) =~= seq![
        RawView::Strict(expr),
    ]);
}

/// Find the brace closing a strict marker whose expression starts at
/// `from`.
fn find_strict_end(s: &Vec<char>, from: usize) -> (r: Option<usize>)
    requires
        from <= s@.len(),
    ensures
        match r {
            Some(e) => strict_end(s@, from as int, false) == Some(e as int) && from <= e < s@.len(),
            None => strict_end(s@, from as int, false) is None,
        },
{
    proof {
        lemma_strict_end_range(s@, from as int, false);
    }
    let mut i = from;
    let mut in_string = false;
    while i < s.len()
        invariant
            from <= i <= s@.len(),
            strict_end(s@, from as int, false) == strict_end(s@, i as int, in_string),
        decreases s@.len() - i,
    {
        let c = s[i];
        if in_string {
            if c == '\\' {
                if i + 1 >= s.len() {
                    return None;
                }
                i = i + 2;
                continue;
            }
            if c == '"' {
                in_string = false;
            }
        } else if c == '"' {
            in_string = true;
        } else if c == '}' {
            return Some(i);
        }
        i = i + 1;
    }
    None
}

fn is_blank(s: &Vec<char>, lo: usize, hi: usize) -> (r: bool)
    requires
        lo <= hi <= s@.len(),
    ensures
        r == blank(s@.subrange(lo as int, hi as int)),
{
    let mut i = lo;
    while i < hi
        invariant
            lo <= i <= hi <= s@.len(),
            forall|k: int| lo <= k < i ==> is_white_space(#[trigger] s@[k]),
        decreases hi - i,
    {
        let u = s[i] as u32;
        let white = (0x09 <= u && u <= 0x0D) || u == 0x20 || u == 0x85 || u == 0xA0 || u == 0x1680 || (
        0x2000 <= u && u <= 0x200A) || u == 0x2028 || u == 0x2029 || u == 0x202F || u == 0x205F || u
            == 0x3000;
        if !white {
            assert(!is_white_space(s@.subrange(lo as int, hi as int)[i - lo]));
            return false;
        }
        i = i + 1;
    }
    assert forall|k: int| 0 <= k < hi - lo implies is_white_space(
        #[trigger] s@.subrange(lo as int, hi as int)[k],
    ) by {
        assert(s@.subrange(lo as int, hi as int)[k] == s@[lo + k]);
    }
    true
}

fn text_error(location: &str, offset: usize, reason: &str) -> (e: ResultTextError)
    ensures
        e@ == text_failure(location@, offset as int, reason@),
{
    ResultTextError { location: location.to_owned(), offset, reason: reason.to_owned() }
}

proof fn lemma_utf8_split(s: Seq<char>, i: int, j: int)
    requires
        0 <= i <= j <= s.len(),
    ensures
        utf8_total(s.take(j)) == utf8_total(s.take(i)) + utf8_total(s.subrange(i, j)),
    decreases j - i,
{
    if i < j {
        lemma_utf8_split(s, i, j - 1);
        assert(s.take(j).drop_last() =~= s.take(j - 1));
        assert(s.subrange(i, j).drop_last() =~= s.subrange(i, j - 1));
    } else {
        assert(s.subrange(i, j) =~= Seq::<char>::empty());
    }
}

proof fn lemma_utf8_take_bound(s: Seq<char>, i: int)
    requires
        0 <= i <= s.len(),
    ensures
        utf8_total(s.take(i)) <= utf8_total(s),
{
    lemma_utf8_split(s, i, s.len() as int);
    assert(s.take(s.len() as int) =~= s);
}

/// The UTF-8 length of `s[lo..hi]`.
fn utf8_span(s: &Vec<char>, lo: usize, hi: usize) -> (n: usize)
    requires
        lo <= hi <= s@.len(),
        utf8_total(s@.subrange(lo as int, hi as int)) <= usize::MAX,
    ensures
        n == utf8_total(s@.subrange(lo as int, hi as int)),
{
    let ghost t = s@.subrange(lo as int, hi as int);
    let mut n: usize = 0;
    let mut k = lo;
    assert(t.take(0) =~= Seq::<char>::empty());
    while k < hi
        invariant
            lo <= k <= hi <= s@.len(),
            t == s@.subrange(lo as int, hi as int),
            utf8_total(t) <= usize::MAX,
            n == utf8_total(t.take(k - lo)),
        decreases hi - k,
    {
        proof {
            assert(t.take(k - lo + 1).drop_last() =~= t.take(k - lo));
            lemma_utf8_take_bound(t, k - lo + 1);
        }
        n = n + crate::expression::char_utf8_len(s[k]);
        k = k + 1;
    }
    assert(t.take(hi - lo) =~= t);
    n
}

proof fn lemma_prepend_raws(a: Seq<RawView>, b: Seq<RawView>, r: Result<Seq<RawView>, TextFailure>)
    ensures
        prepend_raws(a, prepend_raws(b, r)) == prepend_raws(a + b, r),
{
    if let Ok(rest) = r {
        assert(a + (b + rest) =~= (a + b) + rest);
    }
}

fn flush_literal(segs: &mut Vec<RawSegment>, lit: &Vec<char>)
    ensures
        raws_view(final(segs)@) == raws_view(old(segs)@) + flush(lit@),
{
    if lit.len() > 0 {
        segs.push(RawSegment::Literal(string_from_chars(lit.as_slice())));
        assert(raws_view(segs@) =~= raws_view(old(segs)@) + flush(lit@));
    } else {
        assert(raws_view(segs@) =~= raws_view(old(segs)@) + flush(lit@));
    }
}

/// Split a template at its strict markers.
pub fn scan_template(source: &str) -> (r: Result<Vec<RawSegment>, ResultTextError>)
    requires
        utf8_total(source@) <= usize::MAX,
    ensures
        match r {
            Ok(v) => scan(source@, 0, 0, Seq::empty()) == Ok::<Seq<RawView>, TextFailure>(raws_view(v@)),
            Err(e) => scan(source@, 0, 0, Seq::empty()) == Err::<Seq<RawView>, TextFailure>(e@),
        },
{
    let s = chars_of(source);
    let mut segs: Vec<RawSegment> = Vec::new();
    let mut lit: Vec<char> = Vec::new();
    let mut i: usize = 0;
    let mut b: usize = 0;
    assert(s@.take(0) =~= Seq::<char>::empty());
    assert(raws_view(segs@) =~= Seq::<RawView>::empty());
    while i < s.len()
        invariant
            s@ == source@,
            i <= s@.len(),
            b == utf8_total(s@.take(i as int)),
            utf8_total(s@) <= usize::MAX,
            scan(s@, 0, 0, Seq::empty()) == prepend_raws(raws_view(segs@), scan(s@, i as int, b as int, lit@)),
        decreases s@.len() - i,
    {
        proof {
            lemma_utf8_take_bound(s@, i as int);
        }
        if s.len() - i > 2 && s[i] == '{' && s[i + 1] == '{' && s[i + 2] == '=' {
            proof {
                lemma_utf8_split(s@, i as int, i + 3);
                lemma_utf8_take_bound(s@, i + 3);
                reveal_with_fuel(utf8_total, 4);
                assert(s@.subrange(i as int, i + 3) =~= seq!['{', '{', '=']);
            }
            let ghost lit0 = lit@;
            lit.push('{');
            lit.push('=');
            assert(lit@ =~= lit0 + seq!['{', '=']);
            i = i + 3;
            b = b + 3;
        } else if s.len() - i > 1 && s[i] == '{' && s[i + 1] == '=' {
            let end = match find_strict_end(&s, i + 2) {
                Some(e) => e,
                None => {
                    return Err(text_error("text", b, "unterminated `{=` marker"));
                },
            };
            if is_blank(&s, i + 2, end) {
                return Err(text_error("text", b, "empty `{=` expression"));
            }
            let ghost pre = raws_view(segs@);
            flush_literal(&mut segs, &lit);
            let ghost mid = raws_view(segs@);
            let inner = string_from_range(s.as_slice(), i + 2, end);
            let ghost x = RawView::Strict(inner@);
            segs.push(RawSegment::Strict(inner));
            proof {
                lemma_utf8_split(s@, i as int, end + 1);
                lemma_utf8_take_bound(s@, end + 1);
                assert(raws_view(segs@) =~= mid.push(x));
                assert(mid.push(x) =~= pre + flush(lit@).push(x));
                lemma_prepend_raws(pre, flush(lit@).push(x), scan(s@, end + 1, b + utf8_total(s@.subrange(i as int, end + 1)), Seq::empty()));
            }
            lit = Vec::new();
            b = b + utf8_span(&s, i, end + 1);
            i = end + 1;
        } else {
            proof {
                assert(s@.take(i + 1).drop_last() =~= s@.take(i as int));
                lemma_utf8_take_bound(s@, i + 1);
            }
            let c = s[i];
            lit.push(c);
            b = b + crate::expression::char_utf8_len(c);
            i = i + 1;
        }
    }
    flush_literal(&mut segs, &lit);
    proof {
        assert(raws_view(segs@) =~= raws_view(segs@) + Seq::<RawView>::empty());
    }
    Ok(segs)
}

/// Where binding `k` named `name` is reported.
pub open spec fn binding_location(k: int, name: Seq<char>) -> Seq<char> {
    "let["@ + decimal(k) + "]."@ + name
}

pub open spec fn prepend_binds(
    pre: Seq<BindView>,
    r: Result<(Seq<BindView>, Seq<(Seq<char>, ValueType)>), TextFailure>,
) -> Result<(Seq<BindView>, Seq<(Seq<char>, ValueType)>), TextFailure> {
    match r {
        Ok((rest, scope)) => Ok((pre + rest, scope)),
        Err(e) => Err(e),
    }
}

/// Check bindings `k..` of `bs` in `scope`, each one seeing the bindings
/// before it: the checked bindings and the scope they leave.
pub open spec fn bind_all(bs: Seq<ResultBinding>, k: int, scope: Seq<(Seq<char>, ValueType)>) -> Result<
    (Seq<BindView>, Seq<(Seq<char>, ValueType)>),
    TextFailure,
>
    decreases bs.len() - k,
{
    if k < 0 || k >= bs.len() {
        Ok((Seq::empty(), scope))
    } else {
        let name = bs[k].name@;
        let source = bs[k].value@;
        let loc = binding_location(k, name);
        if !binding_name_ok(name) {
            Err(text_failure(loc, 0, "invalid binding name `"@ + name + "`"@))
        } else if reserved(name) {
            Err(text_failure(loc, 0, "binding name `"@ + name + "` is reserved"@))
        } else if lookup(scope, name) is Some {
            Err(text_failure(loc, 0, "duplicate binding name `"@ + name + "`"@))
        } else {
            match parse_spec(source) {
                Err(e) => Err(text_failure(loc, e.offset, e.reason)),
                Ok(node) => match type_of(node, scope, true) {
                    Err(e) => Err(text_failure(loc, e.offset, e.reason)),
                    Ok(t) => prepend_binds(
                        seq![BindView { name, source, node, value_type: t }],
                        bind_all(bs, k + 1, scope.push((name, t))),
                    ),
                },
            }
        }
    }
}

pub open spec fn prepend_segs(pre: Seq<SegView>, r: Result<Seq<SegView>, TextFailure>) -> Result<
    Seq<SegView>,
    TextFailure,
> {
    match r {
        Ok(rest) => Ok(pre + rest),
        Err(e) => Err(e),
    }
}

/// Check template pieces `k..` of `raws` in `scope`; strict expressions
/// may not roll dice.
proof fn lemma_prepend_binds(
    a: Seq<BindView>,
    b: Seq<BindView>,
    r: Result<(Seq<BindView>, Seq<(Seq<char>, ValueType)>), TextFailure>,
)
    ensures
        prepend_binds(a, prepend_binds(b, r)) == prepend_binds(a + b, r),
{
    if let Ok((rest, _)) = r {
        assert(a + (b + rest) =~= (a + b) + rest);
    }
}

proof fn lemma_prepend_segs(a: Seq<SegView>, b: Seq<SegView>, r: Result<Seq<SegView>, TextFailure>)
    ensures
        prepend_segs(a, prepend_segs(b, r)) == prepend_segs(a + b, r),
{
    if let Ok(rest) = r {
        assert(a + (b + rest) =~= (a + b) + rest);
    }
}

pub open spec fn check_segments(raws: Seq<RawView>, k: int, scope: Seq<(Seq<char>, ValueType)>) -> Result<
    Seq<SegView>,
    TextFailure,
>
    decreases raws.len() - k,
{
    if k < 0 || k >= raws.len() {
        Ok(Seq::empty())
    } else {
        match raws[k] {
            RawView::Literal(t) => prepend_segs(seq![SegView::Literal(t)], check_segments(raws, k + 1, scope)),
            RawView::Strict(source) => match parse_spec(source) {
                Err(e) => Err(text_failure("text"@, e.offset, e.reason)),
                Ok(node) => match type_of(node, scope, false) {
                    Err(e) => Err(text_failure("text"@, e.offset, e.reason)),
                    Ok(_) => prepend_segs(
                        seq![SegView::Expression(source, node)],
                        check_segments(raws, k + 1, scope),
                    ),
                },
            },
        }
    }
}

/// The scope every result entry starts from: `value`, an integer.
pub open spec fn base_scope() -> Seq<(Seq<char>, ValueType)> {
    seq![("value"@, ValueType::Integer)]
}

/// Prepare a result entry with bindings `bs` and template `text`.
pub open spec fn prepare_spec(bs: Seq<ResultBinding>, text: Option<Seq<char>>) -> Result<
    (Seq<BindView>, Seq<SegView>),
    TextFailure,
> {
    if bs.len() > MAX_BINDINGS_PER_RESULT {
        Err(
            text_failure(
                "let"@,
                bs.len() as int,
                "too many bindings: "@ + decimal(bs.len() as int) + " exceeds limit of 128"@,
            ),
        )
    } else if text matches Some(t) && utf8_total(t) > MAX_TEMPLATE_BYTES && (bs.len() > 0
        || has_marker(t)) {
        Err(text_failure("text"@, MAX_TEMPLATE_BYTES as int, "template source exceeds size limit of 65536 bytes"@))
    } else {
        match bind_all(bs, 0, base_scope()) {
            Err(e) => Err(e),
            Ok((binds, scope)) => match text {
                None => Ok((binds, Seq::empty())),
                Some(t) => match scan(t, 0, 0, Seq::empty()) {
                    Err(e) => Err(e),
                    Ok(raws) => match check_segments(raws, 0, scope) {
                        Err(e) => Err(e),
                        Ok(segs) => Ok((binds, segs)),
                    },
                },
            },
        }
    }
}

fn message3(prefix: &str, name: &str, suffix: &str) -> (s: String)
    ensures
        s@ == prefix@ + name@ + suffix@,
{
    let mut s = String::new();
    push_str(&mut s, prefix);
    push_str(&mut s, name);
    push_str(&mut s, suffix);
    s
}

fn location_of(k: usize, name: &str) -> (s: String)
    ensures
        s@ == binding_location(k as int, name@),
{
    let mut s = String::new();
    push_str(&mut s, "let[");
    push_u64(&mut s, k as u64);
    push_str(&mut s, "].");
    push_str(&mut s, name);
    s
}

fn has_marker_exec(cs: &Vec<char>) -> (r: bool)
    ensures
        r == has_marker(cs@),
{
    let mut i: usize = 0;
    while i < cs.len()
        invariant
            i <= cs@.len(),
            forall|k: int| 0 <= k < i ==> !(#[trigger] char_at(cs@, k, '{') && char_at(cs@, k + 1, '=')),
        decreases cs@.len() - i,
    {
        if i + 1 < cs.len() && cs[i] == '{' && cs[i + 1] == '=' {
            assert(char_at(cs@, i as int, '{') && char_at(cs@, i + 1, '='));
            return true;
        }
        i = i + 1;
    }
    proof {
        if has_marker(cs@) {
            let k = choose|k: int| #[trigger] char_at(cs@, k, '{') && char_at(cs@, k + 1, '=');
            assert(k < i);
        }
    }
    false
}

fn utf8_exceeds(cs: &Vec<char>, limit: usize) -> (r: bool)
    ensures
        r == (utf8_total(cs@) > limit),
{
    let mut n: usize = 0;
    let mut i: usize = 0;
    assert(cs@.take(0) =~= Seq::<char>::empty());
    while i < cs.len()
        invariant
            i <= cs@.len(),
            n == utf8_total(cs@.take(i as int)),
            n <= limit,
        decreases cs@.len() - i,
    {
        assert(cs@.take(i + 1).drop_last() =~= cs@.take(i as int));
        let w = crate::expression::char_utf8_len(cs[i]);
        if w > limit - n {
            proof {
                lemma_utf8_take_bound(cs@, i + 1);
            }
            return true;
        }
        n = n + w;
        i = i + 1;
    }
    assert(cs@.take(i as int) =~= cs@);
    false
}

fn prepare_bindings(bs: &Vec<ResultBinding>) -> (r: Result<(Vec<CheckedBinding>, TypeScope), ResultTextError>)
    ensures
        match r {
            Ok((v, scope)) => bind_all(bs@, 0, base_scope()) == Ok::<
                (Seq<BindView>, Seq<(Seq<char>, ValueType)>),
                TextFailure,
            >((binds_view(v@), scope@)),
            Err(e) => bind_all(bs@, 0, base_scope()) == Err::<
                (Seq<BindView>, Seq<(Seq<char>, ValueType)>),
                TextFailure,
            >(e@),
        },
{
    let mut scope = TypeScope::new();
    scope.insert("value".to_owned(), ValueType::Integer);
    assert(scope@ =~= base_scope());
    let mut out: Vec<CheckedBinding> = Vec::new();
    let mut k: usize = 0;
    assert(binds_view(out@) =~= Seq::<BindView>::empty());
    while k < bs.len()
        invariant
            k <= bs@.len(),
            out@.len() == k,
            bind_all(bs@, 0, base_scope()) == prepend_binds(binds_view(out@), bind_all(bs@, k as int, scope@)),
        decreases bs@.len() - k,
    {
        let b = &bs[k];
        let name = b.name.as_str();
        if !is_binding_name(name) {
            return Err(
                ResultTextError {
                    location: location_of(k, name),
                    offset: 0,
                    reason: message3("invalid binding name `", name, "`"),
                },
            );
        }
        if is_reserved(name) {
            return Err(
                ResultTextError {
                    location: location_of(k, name),
                    offset: 0,
                    reason: message3("binding name `", name, "` is reserved"),
                },
            );
        }
        if scope.contains_key(name) {
            return Err(
                ResultTextError {
                    location: location_of(k, name),
                    offset: 0,
                    reason: message3("duplicate binding name `", name, "`"),
                },
            );
        }
        let parsed = match parse(b.value.as_str()) {
            Ok(x) => x,
            Err(e) => {
                return Err(ResultTextError { location: location_of(k, name), offset: e.offset, reason: e.reason });
            },
        };
        let t = match check(&parsed, &scope, true) {
            Ok(t) => t,
            Err(e) => {
                return Err(ResultTextError { location: location_of(k, name), offset: e.offset, reason: e.reason });
            },
        };
        let ghost pre = binds_view(out@);
        let ghost old_scope = scope@;
        scope.insert(b.name.clone(), t);
        out.push(CheckedBinding { name: b.name.clone(), source: b.value.clone(), expression: parsed, value_type: t });
        proof {
            let bv = bind_view(out@[k as int]);
            assert(binds_view(out@) =~= pre + seq![bv]);
            assert(bind_all(bs@, k as int, old_scope) == prepend_binds(seq![bv], bind_all(bs@, k + 1, scope@)));
            lemma_prepend_binds(pre, seq![bv], bind_all(bs@, k + 1, scope@));
        }
        k = k + 1;
    }
    assert(binds_view(out@) =~= binds_view(out@) + Seq::<BindView>::empty());
    Ok((out, scope))
}

fn prepare_segments(raws: Vec<RawSegment>, scope: &TypeScope) -> (r: Result<Vec<Segment>, ResultTextError>)
    ensures
        match r {
            Ok(v) => check_segments(raws_view(raws@), 0, scope@) == Ok::<Seq<SegView>, TextFailure>(segs_view(v@)),
            Err(e) => check_segments(raws_view(raws@), 0, scope@) == Err::<Seq<SegView>, TextFailure>(e@),
        },
{
    let ghost rv = raws_view(raws@);
    let mut out: Vec<Segment> = Vec::new();
    let mut k: usize = 0;
    assert(segs_view(out@) =~= Seq::<SegView>::empty());
    while k < raws.len()
        invariant
            k <= raws@.len(),
            out@.len() == k,
            rv == raws_view(raws@),
            check_segments(rv, 0, scope@) == prepend_segs(segs_view(out@), check_segments(rv, k as int, scope@)),
        decreases raws@.len() - k,
    {
        let ghost pre = segs_view(out@);
        match &raws[k] {
            RawSegment::Literal(t) => {
                out.push(Segment::Literal(t.clone()));
            },
            RawSegment::Strict(source) => {
                let parsed = match parse(source.as_str()) {
                    Ok(x) => x,
                    Err(e) => {
                        return Err(ResultTextError { location: "text".to_owned(), offset: e.offset, reason: e.reason });
                    },
                };
                match check(&parsed, scope, false) {
                    Ok(_) => {},
                    Err(e) => {
                        return Err(ResultTextError { location: "text".to_owned(), offset: e.offset, reason: e.reason });
                    },
                }
                out.push(Segment::Expression { source: source.clone(), expression: parsed });
            },
        }
        proof {
            let sv = seg_view(out@[k as int]);
            assert(segs_view(out@) =~= pre + seq![sv]);
            assert(check_segments(rv, k as int, scope@) == prepend_segs(seq![sv], check_segments(rv, k + 1, scope@)));
            lemma_prepend_segs(pre, seq![sv], check_segments(rv, k + 1, scope@));
        }
        k = k + 1;
    }
    assert(segs_view(out@) =~= segs_view(out@) + Seq::<SegView>::empty());
    Ok(out)
}

/// Prepare a result entry: check its bindings in order, then split its
/// template and check each strict expression.
pub fn prepare(entry: &ResultEntry) -> (r: Result<PreparedResult, ResultTextError>)
    requires
        entry.text matches Some(t) ==> utf8_total(t@) <= usize::MAX,
    ensures
        match r {
            Ok(p) => prepare_spec(entry.bindings@, text_view(entry.text)) == Ok::<
                (Seq<BindView>, Seq<SegView>),
                TextFailure,
            >((binds_view(p.bindings@), segs_view(p.segments@))),
            Err(e) => prepare_spec(entry.bindings@, text_view(entry.text)) == Err::<
                (Seq<BindView>, Seq<SegView>),
                TextFailure,
            >(e@),
        },
{
    let n = entry.bindings.len();
    if n > MAX_BINDINGS_PER_RESULT {
        let mut reason = String::new();
        push_str(&mut reason, "too many bindings: ");
        push_u64(&mut reason, n as u64);
        push_str(&mut reason, " exceeds limit of 128");
        return Err(ResultTextError { location: "let".to_owned(), offset: n, reason });
    }
    match &entry.text {
        Some(t) => {
            let cs = chars_of(t.as_str());
            if utf8_exceeds(&cs, MAX_TEMPLATE_BYTES) && (n > 0 || has_marker_exec(&cs)) {
                return Err(
                    text_error("text", MAX_TEMPLATE_BYTES, "template source exceeds size limit of 65536 bytes"),
                );
            }
        },
        None => {},
    }
    let (bindings, scope) = match prepare_bindings(&entry.bindings) {
        Ok(x) => x,
        Err(e) => {
            return Err(e);
        },
    };
    let segments = match &entry.text {
        None => Vec::new(),
        Some(t) => {
            let raws = match scan_template(t.as_str()) {
                Ok(v) => v,
                Err(e) => {
                    return Err(e);
                },
            };
            match prepare_segments(raws, &scope) {
                Ok(v) => v,
                Err(e) => {
                    return Err(e);
                },
            }
        },
    };
    assert(entry.text is None ==> segs_view(segments@) =~= Seq::<SegView>::empty());
    Ok(PreparedResult { bindings, segments })
}

/// A template as values.
pub open spec fn text_view(t: Option<String>) -> Option<Seq<char>> {
    match t {
        Some(s) => Some(s@),
        None => None,
    }
}

proof fn lemma_segments_have_no_dice(raws: Seq<RawView>, k: int, scope: Seq<(Seq<char>, ValueType)>)
    requires
        check_segments(raws, k, scope) is Ok,
    ensures
        forall|i: int|
            0 <= i < check_segments(raws, k, scope)->Ok_0.len() ==> (#[trigger] check_segments(
                raws,
                k,
                scope,
            )->Ok_0[i] matches SegView::Expression(_, n) ==> !has_dice(n)),
    decreases raws.len() - k,
{
    if 0 <= k < raws.len() {
        lemma_segments_have_no_dice(raws, k + 1, scope);
        let rest = check_segments(raws, k + 1, scope)->Ok_0;
        let all = check_segments(raws, k, scope)->Ok_0;
        match raws[k] {
            RawView::Literal(t) => {
                assert(all == seq![SegView::Literal(t)] + rest);
                assert forall|i: int| 0 <= i < all.len() implies (#[trigger] all[i] matches SegView::Expression(
                    _,
                    n,
                ) ==> !has_dice(n)) by {
                    if i > 0 {
                        assert(all[i] == rest[i - 1]);
                    }
                }
            },
            RawView::Strict(source) => {
                let node = parse_spec(source)->Ok_0;
                lemma_checked_without_rolls_has_no_dice(node, scope);
                assert(all == seq![SegView::Expression(source, node)] + rest);
                assert forall|i: int| 0 <= i < all.len() implies (#[trigger] all[i] matches SegView::Expression(
                    _,
                    n,
                ) ==> !has_dice(n)) by {
                    if i > 0 {
                        assert(all[i] == rest[i - 1]);
                    }
                }
            },
        }
    }
}

/// A law of preparing: a prepared template's strict expressions never
/// roll dice, in any branch.
pub proof fn lemma_template_never_rolls(bs: Seq<ResultBinding>, text: Option<Seq<char>>)
    requires
        prepare_spec(bs, text) is Ok,
    ensures
        forall|i: int|
            0 <= i < prepare_spec(bs, text)->Ok_0.1.len() ==> (#[trigger] prepare_spec(bs, text)->Ok_0.1[i] matches SegView::Expression(
                _,
                n,
            ) ==> !has_dice(n)),
{
    if let Ok((binds, scope)) = bind_all(bs, 0, base_scope()) {
        if let Some(t) = text {
            if let Ok(raws) = scan(t, 0, 0, Seq::empty()) {
                lemma_segments_have_no_dice(raws, 0, scope);
            }
        }
    }
}

proof fn lemma_bound_names(bs: Seq<ResultBinding>, k: int, scope: Seq<(Seq<char>, ValueType)>)
    requires
        bind_all(bs, k, scope) is Ok,
    ensures
        ({
            let binds = bind_all(bs, k, scope)->Ok_0.0;
            &&& forall|i: int|
                0 <= i < binds.len() ==> binding_name_ok(#[trigger] binds[i].name) && !reserved(binds[i].name)
                    && lookup(scope, binds[i].name) is None
            &&& forall|i: int, j: int| 0 <= i < j < binds.len() ==> #[trigger] binds[i].name != #[trigger] binds[j].name
        }),
    decreases bs.len() - k,
{
    if 0 <= k < bs.len() {
        let name = bs[k].name@;
        let node = parse_spec(bs[k].value@)->Ok_0;
        let t = type_of(node, scope, true)->Ok_0;
        let inner = scope.push((name, t));
        lemma_bound_names(bs, k + 1, inner);
        let rest = bind_all(bs, k + 1, inner)->Ok_0.0;
        let binds = bind_all(bs, k, scope)->Ok_0.0;
        assert(inner.drop_last() =~= scope);
        assert(binds.len() == rest.len() + 1);
        assert forall|i: int| 1 <= i < binds.len() implies #[trigger] binds[i] == rest[i - 1] by {}
        assert forall|i: int| 1 <= i < binds.len() implies binds[i].name != name && lookup(scope, binds[i].name) is None by {
            assert(binds[i] == rest[i - 1]);
            assert(lookup(inner, rest[i - 1].name) is None);
        }
    }
}

/// A law of preparing: the bindings of a prepared entry have valid,
/// unreserved and pairwise distinct names, none of them `value`.
pub proof fn lemma_prepared_names_distinct(bs: Seq<ResultBinding>, text: Option<Seq<char>>)
    requires
        prepare_spec(bs, text) is Ok,
    ensures
        ({
            let binds = prepare_spec(bs, text)->Ok_0.0;
            &&& forall|i: int|
                0 <= i < binds.len() ==> binding_name_ok(#[trigger] binds[i].name) && !reserved(binds[i].name)
            &&& forall|i: int, j: int| 0 <= i < j < binds.len() ==> #[trigger] binds[i].name != #[trigger] binds[j].name
        }),
{
    lemma_bound_names(bs, 0, base_scope());
}

} // verus!
