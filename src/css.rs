use vstd::prelude::*;
use crate::chars::{ident_char, is_ident_char};
use crate::dom::ElementData;
use crate::parser::{lemma_run_end, run_end, ParseError, Parser, Run};

verus! {

/// A style sheet: its rules in source order.
#[derive(Debug, PartialEq, Eq)]
pub struct Stylesheet {
    pub rules: Vec<Rule>,
}

#[derive(Debug, PartialEq, Eq)]
pub struct Rule {
    pub selectors: Vec<Selector>,
    pub declarations: Vec<Declaration>,
}

#[derive(Debug, PartialEq, Eq)]
pub enum Selector {
    Simple(SimpleSelector),
}

/// Conditions on an element, all of which must hold; an absent one always holds.
#[derive(Debug, PartialEq, Eq)]
pub struct SimpleSelector {
    pub tag_name: Option<String>,
    pub id: Option<String>,
    pub class: Vec<String>,
}

#[derive(Debug, PartialEq, Eq)]
pub struct Declaration {
    pub name: String,
    pub value: Value,
}

#[derive(Debug, Clone, PartialEq, Eq)]
pub enum Value {
    Keyword(String),
    Length(u64, Unit),
    ColorValue(Color),
}

#[derive(Debug, Clone, Copy, PartialEq, Eq)]
pub enum Unit {
    Px,
}

#[derive(Debug, Clone, Copy, PartialEq, Eq)]
pub struct Color {
    pub r: u8,
    pub g: u8,
    pub b: u8,
    pub a: u8,
}

/// Counts of id, class and tag conditions, compared in that order.
pub type Specificity = (usize, usize, usize);

/// `a` orders strictly before `b`.
pub open spec fn spec_less(a: Specificity, b: Specificity) -> bool {
    a.0 < b.0 || (a.0 == b.0 && (a.1 < b.1 || (a.1 == b.1 && a.2 < b.2)))
}

pub fn specificity_less(a: Specificity, b: Specificity) -> (r: bool)
    ensures
        r == spec_less(a, b),
{
    a.0 < b.0 || (a.0 == b.0 && (a.1 < b.1 || (a.1 == b.1 && a.2 < b.2)))
}

impl Value {
    /// A copy of this value.
    pub fn cloned(&self) -> (r: Value)
        ensures
            r == *self,
    {
        match self {
            Value::Keyword(s) => Value::Keyword(s.clone()),
            Value::Length(n, u) => Value::Length(*n, *u),
            Value::ColorValue(c) => Value::ColorValue(*c),
        }
    }
}

impl SimpleSelector {
    pub open spec fn spec_specificity(&self) -> Specificity {
        (
            if self.id is Some { 1 } else { 0 },
            self.class@.len() as usize,
            if self.tag_name is Some { 1 } else { 0 },
        )
    }

    /// Every condition of the selector holds of `e`.
    pub open spec fn spec_matches(&self, e: ElementData) -> bool {
        &&& (self.tag_name matches Some(t) ==> e.tag_name@ == t@)
        &&& (self.id matches Some(i) ==> e.id_spec() == Some(i@))
        &&& forall|k: int| 0 <= k < self.class@.len() ==> e.has_class_spec(#[trigger] self.class@[k]@)
    }
}

impl Selector {
    pub open spec fn spec_specificity(&self) -> Specificity {
        match self {
            Selector::Simple(s) => s.spec_specificity(),
        }
    }

    pub open spec fn spec_matches(&self, e: ElementData) -> bool {
        match self {
            Selector::Simple(s) => s.spec_matches(e),
        }
    }

    pub fn specificity(&self) -> (r: Specificity)
        ensures
            r == self.spec_specificity(),
    {
        match self {
            Selector::Simple(s) => {
                let a: usize = if s.id.is_some() { 1 } else { 0 };
                let c: usize = if s.tag_name.is_some() { 1 } else { 0 };
                (a, s.class.len(), c)
            },
        }
    }
}

/// The highest specificity among the selectors in `sels` that match `e`, if one does.
pub open spec fn best_match(e: ElementData, sels: Seq<Selector>) -> Option<Specificity>
    decreases sels.len(),
{
    if sels.len() == 0 {
        None
    } else {
        let rest = best_match(e, sels.drop_first());
        if sels[0].spec_matches(e) && !(rest matches Some(t) && spec_less(
            sels[0].spec_specificity(),
            t,
        )) {
            Some(sels[0].spec_specificity())
        } else {
            rest
        }
    }
}

/// A value as the grammar describes it.
pub enum ValueTree {
    Keyword(Seq<char>),
    Length(u64),
    Color(Color),
}

/// A simple selector as the grammar describes it.
pub struct SelectorTree {
    pub tag_name: Option<Seq<char>>,
    pub id: Option<Seq<char>>,
    pub class: Seq<Seq<char>>,
}

/// A rule as the grammar describes it: selectors, then declarations as names and values.
pub struct RuleTree {
    pub selectors: Seq<SelectorTree>,
    pub declarations: Seq<(Seq<char>, ValueTree)>,
}

pub open spec fn ws_end(s: Seq<char>, i: int) -> int {
    run_end(s, i, Run::Space)
}

pub open spec fn ident_end(s: Seq<char>, i: int) -> int {
    run_end(s, i, Run::Ident)
}

/// Two hexadecimal digits at `i`: their value and the position after them.
pub open spec fn hex_pair_at(s: Seq<char>, i: int) -> Option<(int, int)> {
    if 0 <= i && i + 1 < s.len() && is_hex_digit(s[i]) && is_hex_digit(s[i + 1]) {
        Some((hex_value(s[i]) * 16 + hex_value(s[i + 1]), i + 2))
    } else {
        None
    }
}

/// `#rrggbb` at `i`, as an opaque color, and the position after it.
pub open spec fn color_at(s: Seq<char>, i: int) -> Option<(Color, int)> {
    if 0 <= i < s.len() && s[i] == '#' && hex_pair_at(s, i + 1) is Some && hex_pair_at(s, i + 3)
        is Some && hex_pair_at(s, i + 5) is Some {
        Some(
            (
                Color {
                    r: (hex_pair_at(s, i + 1)->0).0 as u8,
                    g: (hex_pair_at(s, i + 3)->0).0 as u8,
                    b: (hex_pair_at(s, i + 5)->0).0 as u8,
                    a: 255,
                },
                i + 7,
            ),
        )
    } else {
        None
    }
}

/// The decimal number at `i`, if it fits in 64 bits, and the position after it.
pub open spec fn number_at(s: Seq<char>, i: int) -> Option<(u64, int)> {
    let e = run_end(s, i, Run::Digit);
    if digits_value(s.subrange(i, e)) <= u64::MAX {
        Some((digits_value(s.subrange(i, e)) as u64, e))
    } else {
        None
    }
}

/// The value at `i`: a length in pixels where a digit stands (any unit after the number
/// reads as pixels), a color where `#` stands, else a keyword; and the position after it.
pub open spec fn value_at(s: Seq<char>, i: int) -> Option<(ValueTree, int)> {
    if !(0 <= i < s.len()) {
        None
    } else if '0' <= s[i] && s[i] <= '9' {
        match number_at(s, i) {
            Some((n, e)) => Some((ValueTree::Length(n), ident_end(s, e))),
            None => None,
        }
    } else if s[i] == '#' {
        match color_at(s, i) {
            Some((c, e)) => Some((ValueTree::Color(c), e)),
            None => None,
        }
    } else {
        Some((ValueTree::Keyword(s.subrange(i, ident_end(s, i))), ident_end(s, i)))
    }
}

/// `name: value;` at `i`, with whitespace around the `:` and before the `;`.
pub open spec fn declaration_at(s: Seq<char>, i: int) -> Option<(Seq<char>, ValueTree, int)> {
    let k = ident_end(s, i);
    let k1 = ws_end(s, k);
    if 0 <= i && k1 < s.len() && s[k1] == ':' {
        match value_at(s, ws_end(s, k1 + 1)) {
            Some((v, e)) => {
                let e2 = ws_end(s, e);
                if e2 < s.len() && s[e2] == ';' {
                    Some((s.subrange(i, k), v, e2 + 1))
                } else {
                    None
                }
            },
            None => None,
        }
    } else {
        None
    }
}

/// The declarations from `i` up to and past the closing `}`.
pub open spec fn declarations_at(s: Seq<char>, i: int) -> Option<(Seq<(Seq<char>, ValueTree)>, int)>
    decreases s.len() - i,
{
    let j = ws_end(s, i);
    if !(0 <= i <= j < s.len()) {
        None
    } else if s[j] == '}' {
        Some((Seq::empty(), j + 1))
    } else {
        match declaration_at(s, j) {
            Some((n, v, e)) => if i < e <= s.len() {
                match declarations_at(s, e) {
                    Some((ds, f)) => Some((seq![(n, v)] + ds, f)),
                    None => None,
                }
            } else {
                None
            },
            None => None,
        }
    }
}

/// The simple selector from `i` on, added to `sel`: `#id`, `.class`, `*` and a tag name
/// in any order, up to the first other character.
pub open spec fn simple_selector_at(s: Seq<char>, i: int, sel: SelectorTree) -> (SelectorTree, int)
    decreases s.len() - i,
{
    if !(0 <= i < s.len()) {
        (sel, i)
    } else if s[i] == '#' || s[i] == '.' {
        let e = ident_end(s, i + 1);
        let name = s.subrange(i + 1, e);
        let next = if s[i] == '#' {
            SelectorTree { id: Some(name), ..sel }
        } else {
            SelectorTree { class: sel.class.push(name), ..sel }
        };
        if i < e <= s.len() {
            simple_selector_at(s, e, next)
        } else {
            (sel, i)
        }
    } else if s[i] == '*' {
        simple_selector_at(s, i + 1, sel)
    } else if is_ident_char(s[i]) {
        let e = ident_end(s, i);
        if i < e <= s.len() {
            simple_selector_at(s, e, SelectorTree { tag_name: Some(s.subrange(i, e)), ..sel })
        } else {
            (sel, i)
        }
    } else {
        (sel, i)
    }
}

pub open spec fn empty_selector() -> SelectorTree {
    SelectorTree { tag_name: None, id: None, class: Seq::empty() }
}

/// The comma-separated selectors from `i` up to the `{` after them, and its position.
pub open spec fn selectors_at(s: Seq<char>, i: int) -> Option<(Seq<SelectorTree>, int)>
    decreases s.len() - i,
{
    let (sel, e) = simple_selector_at(s, i, empty_selector());
    let j = ws_end(s, e);
    if !(0 <= i <= j < s.len()) {
        None
    } else if s[j] == '{' {
        Some((seq![sel], j))
    } else if s[j] == ',' {
        let k = ws_end(s, j + 1);
        if i < k <= s.len() {
            match selectors_at(s, k) {
                Some((ss, f)) => Some((seq![sel] + ss, f)),
                None => None,
            }
        } else {
            None
        }
    } else {
        None
    }
}

/// The rule at `i`: selectors, then declarations in braces.
pub open spec fn rule_at(s: Seq<char>, i: int) -> Option<(RuleTree, int)> {
    match selectors_at(s, i) {
        Some((sels, j)) => match declarations_at(s, j + 1) {
            Some((ds, e)) => Some((RuleTree { selectors: sels, declarations: ds }, e)),
            None => None,
        },
        None => None,
    }
}

/// The rules from `i` to the end of the text, in source order.
pub open spec fn rules_at(s: Seq<char>, i: int) -> Option<Seq<RuleTree>>
    decreases s.len() - i,
{
    let j = ws_end(s, i);
    if !(0 <= i <= j <= s.len()) {
        None
    } else if j == s.len() {
        Some(Seq::empty())
    } else {
        match rule_at(s, j) {
            Some((r, e)) => if i < e <= s.len() {
                match rules_at(s, e) {
                    Some(rs) => Some(seq![r] + rs),
                    None => None,
                }
            } else {
                None
            },
            None => None,
        }
    }
}

/// The rules of a whole style sheet.
pub open spec fn stylesheet_of(s: Seq<char>) -> Option<Seq<RuleTree>> {
    rules_at(s, 0)
}

pub open spec fn opt_is(o: Option<String>, t: Option<Seq<char>>) -> bool {
    match o {
        Some(v) => t == Some(v@),
        None => t is None,
    }
}

pub open spec fn value_is(v: Value, t: ValueTree) -> bool {
    match t {
        ValueTree::Keyword(k) => v matches Value::Keyword(x) && x@ == k,
        ValueTree::Length(n) => v == Value::Length(n, Unit::Px),
        ValueTree::Color(c) => v == Value::ColorValue(c),
    }
}

pub open spec fn selector_is(sel: Selector, t: SelectorTree) -> bool {
    match sel {
        Selector::Simple(x) => {
            &&& opt_is(x.tag_name, t.tag_name)
            &&& opt_is(x.id, t.id)
            &&& x.class@.len() == t.class.len()
            &&& forall|k: int| 0 <= k < t.class.len() ==> (#[trigger] x.class@[k])@ == t.class[k]
        },
    }
}

pub open spec fn declaration_is(d: Declaration, t: (Seq<char>, ValueTree)) -> bool {
    d.name@ == t.0 && value_is(d.value, t.1)
}

/// Rule `r` is the grammar's rule `t`.
pub open spec fn rule_is(r: Rule, t: RuleTree) -> bool {
    &&& r.selectors@.len() == t.selectors.len()
    &&& forall|k: int| 0 <= k < t.selectors.len() ==> selector_is(#[trigger] r.selectors@[k], t.selectors[k])
    &&& r.declarations@.len() == t.declarations.len()
    &&& forall|k: int|
        0 <= k < t.declarations.len() ==> declaration_is(#[trigger] r.declarations@[k], t.declarations[k])
}

proof fn lemma_digits_prefix(u: Seq<char>, m: int)
    requires
        0 <= m <= u.len(),
        forall|k: int| 0 <= k < u.len() ==> '0' <= #[trigger] u[k] <= '9',
    ensures
        0 <= digits_value(u.subrange(0, m)) <= digits_value(u),
    decreases u.len(),
{
    if u.len() == 0 {
        assert(u.subrange(0, m) =~= u);
    } else {
        let d = u.drop_last();
        let dm = if m == u.len() { d.len() as int } else { m };
        lemma_digits_prefix(d, dm);
        assert(d.subrange(0, d.len() as int) =~= d);
        if m == u.len() {
            assert(u.subrange(0, m) =~= u);
        } else {
            assert(d.subrange(0, m) =~= u.subrange(0, m));
        }
    }
}

/// The number that a run of decimal digits writes.
pub open spec fn digits_value(s: Seq<char>) -> int
    decreases s.len(),
{
    if s.len() == 0 {
        0
    } else {
        digits_value(s.drop_last()) * 10 + (s.last() as int - '0' as int)
    }
}

pub open spec fn is_hex_digit(c: char) -> bool {
    ('0' <= c && c <= '9') || ('a' <= c && c <= 'f') || ('A' <= c && c <= 'F')
}

/// The value of a hexadecimal digit.
pub open spec fn hex_value(c: char) -> int {
    if '0' <= c && c <= '9' {
        (c as int - '0' as int)
    } else if 'a' <= c && c <= 'f' {
        (c as int - 'a' as int) + 10
    } else {
        (c as int - 'A' as int) + 10
    }
}

fn hex_digit(c: char) -> (r: Option<u8>)
    ensures
        r is Some <==> is_hex_digit(c),
        r matches Some(v) ==> v as int == hex_value(c),
{
    if '0' <= c && c <= '9' {
        Some((c as u32 - '0' as u32) as u8)
    } else if 'a' <= c && c <= 'f' {
        Some((c as u32 - 'a' as u32 + 10) as u8)
    } else if 'A' <= c && c <= 'F' {
        Some((c as u32 - 'A' as u32 + 10) as u8)
    } else {
        None
    }
}

impl Parser {
    /// Reads a run of identifier characters.
    fn parse_identifier(&mut self) -> (r: String)
        requires
            old(self).valid(),
        ensures
            final(self).valid(),
            final(self).input == old(self).input,
            final(self).source == old(self).source,
            final(self).pos == run_end(old(self).input@, old(self).pos as int, Run::Ident),
            final(self).pos >= old(self).pos,
            r@ == old(self).input@.subrange(old(self).pos as int, final(self).pos as int),
            forall|k: int| 0 <= k < r@.len() ==> is_ident_char(#[trigger] r@[k]),
    {
        let r = self.consume_while(Run::Ident);
        assert forall|k: int| 0 <= k < r@.len() implies is_ident_char(#[trigger] r@[k]) by {
            assert(r@[k] == old(self).input@[old(self).pos + k]);
        }
        r
    }

    /// Reads two hexadecimal digits.
    fn parse_hex_pair(&mut self) -> (r: Result<u8, ParseError>)
        requires
            old(self).valid(),
        ensures
            final(self).valid(),
            final(self).input == old(self).input,
            final(self).source == old(self).source,
            final(self).pos >= old(self).pos,
            r is Ok <==> hex_pair_at(old(self).input@, old(self).pos as int) is Some,
            r matches Ok(v) ==> v as int == (hex_pair_at(old(self).input@, old(self).pos as int)->0).0
                && final(self).pos == (hex_pair_at(old(self).input@, old(self).pos as int)->0).1,
    {
        let at = self.pos;
        let c = self.consume_char()?;
        let hi = match hex_digit(c) {
            Some(v) => v,
            None => {
                return Err(ParseError::UnexpectedChar { pos: at, found: c });
            },
        };
        let at2 = self.pos;
        let d = self.consume_char()?;
        let lo = match hex_digit(d) {
            Some(v) => v,
            None => {
                return Err(ParseError::UnexpectedChar { pos: at2, found: d });
            },
        };
        Ok(hi * 16 + lo)
    }

    /// Reads `#rrggbb`; the color is opaque.
    fn parse_color(&mut self) -> (r: Result<Color, ParseError>)
        requires
            old(self).valid(),
        ensures
            final(self).valid(),
            final(self).input == old(self).input,
            final(self).source == old(self).source,
            final(self).pos >= old(self).pos,
            r is Ok <==> color_at(old(self).input@, old(self).pos as int) is Some,
            r matches Ok(c) ==> c == (color_at(old(self).input@, old(self).pos as int)->0).0
                && final(self).pos == (color_at(old(self).input@, old(self).pos as int)->0).1,
    {
        self.expect('#')?;
        let r = self.parse_hex_pair()?;
        let g = self.parse_hex_pair()?;
        let b = self.parse_hex_pair()?;
        Ok(Color { r, g, b, a: 255 })
    }

    /// Reads a run of decimal digits as a number.
    fn parse_number(&mut self) -> (r: Result<u64, ParseError>)
        requires
            old(self).valid(),
        ensures
            final(self).valid(),
            final(self).input == old(self).input,
            final(self).source == old(self).source,
            final(self).pos >= old(self).pos,
            r is Ok <==> number_at(old(self).input@, old(self).pos as int) is Some,
            r matches Ok(v) ==> v == (number_at(old(self).input@, old(self).pos as int)->0).0
                && final(self).pos == (number_at(old(self).input@, old(self).pos as int)->0).1,
    {
        let start = self.pos;
        let ghost s = self.input@;
        let ghost e = run_end(s, start as int, Run::Digit);
        proof {
            lemma_run_end(s, start as int, Run::Digit);
        }
        let mut v: u64 = 0;
        while self.pos < self.input.len() && '0' <= self.input[self.pos] && self.input[self.pos]
            <= '9'
            invariant
                self.valid(),
                self.input == old(self).input,
                self.source == old(self).source,
                s == self.input@,
                start == old(self).pos,
                start <= self.pos <= e,
                e == run_end(s, start as int, Run::Digit),
                e == run_end(s, self.pos as int, Run::Digit),
                e <= s.len(),
                forall|j: int| start <= j < e ==> '0' <= #[trigger] s[j] <= '9',
                v as int == digits_value(s.subrange(start as int, self.pos as int)),
            decreases self.input@.len() - self.pos,
        {
            proof {
                lemma_run_end(s, self.pos + 1, Run::Digit);
            }
            let d = (self.input[self.pos] as u32 - '0' as u32) as u64;
            assert(s.subrange(start as int, self.pos + 1).drop_last() =~= s.subrange(
                start as int,
                self.pos as int,
            ));
            if v > (u64::MAX - d) / 10 {
                proof {
                    let u = s.subrange(start as int, e);
                    assert(u.subrange(0, self.pos + 1 - start) =~= s.subrange(
                        start as int,
                        self.pos + 1,
                    ));
                    lemma_digits_prefix(u, self.pos + 1 - start);
                }
                return Err(ParseError::NumberTooLarge { pos: self.pos });
            }
            v = v * 10 + d;
            self.skip();
        }
        Ok(v)
    }

    /// Reads a value: a length when it starts with a digit, a color when it starts
    /// with `#`, else a keyword.
    fn parse_value(&mut self) -> (r: Result<Value, ParseError>)
        requires
            old(self).valid(),
        ensures
            final(self).valid(),
            final(self).input == old(self).input,
            final(self).source == old(self).source,
            final(self).pos >= old(self).pos,
            r is Ok <==> value_at(old(self).input@, old(self).pos as int) is Some,
            r matches Ok(v) ==> value_is(v, (value_at(old(self).input@, old(self).pos as int)->0).0)
                && final(self).pos == (value_at(old(self).input@, old(self).pos as int)->0).1,
    {
        match self.next_char() {
            Some(c) => {
                if '0' <= c && c <= '9' {
                    let n = self.parse_number()?;
                    // Pixels are the only unit: whatever unit follows reads as pixels.
                    self.parse_identifier();
                    Ok(Value::Length(n, Unit::Px))
                } else if c == '#' {
                    let color = self.parse_color()?;
                    Ok(Value::ColorValue(color))
                } else {
                    Ok(Value::Keyword(self.parse_identifier()))
                }
            },
            None => Err(ParseError::UnexpectedEnd),
        }
    }

    /// Reads a selector such as `tag#id.class1.class2`; each part may be left out.
    fn parse_simple_selector(&mut self) -> (r: SimpleSelector)
        requires
            old(self).valid(),
        ensures
            final(self).valid(),
            final(self).input == old(self).input,
            final(self).source == old(self).source,
            final(self).pos >= old(self).pos,
            selector_is(
                Selector::Simple(r),
                simple_selector_at(old(self).input@, old(self).pos as int, empty_selector()).0,
            ),
            final(self).pos == simple_selector_at(
                old(self).input@,
                old(self).pos as int,
                empty_selector(),
            ).1,
    {
        let mut selector = SimpleSelector { tag_name: None, id: None, class: Vec::new() };
        let ghost mut t = empty_selector();
        loop
            invariant
                self.valid(),
                self.input == old(self).input,
                self.source == old(self).source,
                self.pos >= old(self).pos,
                selector_is(Selector::Simple(selector), t),
                simple_selector_at(self.input@, old(self).pos as int, empty_selector())
                    == simple_selector_at(self.input@, self.pos as int, t),
            ensures
                selector_is(Selector::Simple(selector), t),
                simple_selector_at(self.input@, old(self).pos as int, empty_selector()) == (
                t,
                self.pos as int,
                ),
            decreases self.input@.len() - self.pos,
        {
            let ghost s = self.input@;
            let ghost i = self.pos as int;
            proof {
                if i < s.len() {
                    lemma_run_end(s, i + 1, Run::Ident);
                }
                lemma_run_end(s, i, Run::Ident);
            }
            match self.next_char() {
                Some('#') => {
                    self.skip();
                    let id = self.parse_identifier();
                    proof {
                        t = SelectorTree { id: Some(id@), ..t };
                    }
                    selector.id = Some(id);
                },
                Some('.') => {
                    self.skip();
                    let class = self.parse_identifier();
                    proof {
                        t = SelectorTree { class: t.class.push(class@), ..t };
                    }
                    selector.class.push(class);
                },
                Some('*') => {
                    self.skip();
                },
                Some(c) => {
                    if ident_char(c) {
                        let name = self.parse_identifier();
                        proof {
                            t = SelectorTree { tag_name: Some(name@), ..t };
                        }
                        selector.tag_name = Some(name);
                    } else {
                        break ;
                    }
                },
                None => {
                    break ;
                },
            }
        }
        selector
    }

    /// Reads a comma-separated list of selectors, up to the `{` that follows it.
    fn parse_selectors(&mut self) -> (r: Result<Vec<Selector>, ParseError>)
        requires
            old(self).valid(),
        ensures
            final(self).valid(),
            final(self).input == old(self).input,
            final(self).source == old(self).source,
            final(self).pos >= old(self).pos,
            r is Ok <==> selectors_at(old(self).input@, old(self).pos as int) is Some,
            r matches Ok(v) ==> {
                let x = selectors_at(old(self).input@, old(self).pos as int)->0;
                &&& v@.len() == x.0.len()
                &&& forall|k: int| 0 <= k < v@.len() ==> selector_is(#[trigger] v@[k], x.0[k])
                &&& final(self).pos == x.1
            },
            r is Ok ==> final(self).pos < final(self).input@.len() && final(self).input@[final(self).pos as int]
                == '{',
    {
        let mut selectors: Vec<Selector> = Vec::new();
        let ghost mut acc: Seq<SelectorTree> = Seq::empty();
        loop
            invariant_except_break
                selectors@.len() == acc.len(),
                forall|k: int| 0 <= k < acc.len() ==> selector_is(#[trigger] selectors@[k], acc[k]),
                selectors_at(self.input@, old(self).pos as int) == match selectors_at(
                    self.input@,
                    self.pos as int,
                ) {
                    Some((ss, f)) => Some((acc + ss, f)),
                    None => None,
                },
            invariant
                self.valid(),
                self.input == old(self).input,
                self.source == old(self).source,
                self.pos >= old(self).pos,
            ensures
                self.pos < self.input@.len() && self.input@[self.pos as int] == '{',
                selectors@.len() == acc.len(),
                forall|k: int| 0 <= k < acc.len() ==> selector_is(#[trigger] selectors@[k], acc[k]),
                selectors_at(self.input@, old(self).pos as int) == Some((acc, self.pos as int)),
            decreases self.input@.len() - self.pos,
        {
            let ghost s = self.input@;
            let ghost i = self.pos as int;
            let sel = self.parse_simple_selector();
            let ghost st = simple_selector_at(s, i, empty_selector()).0;
            selectors.push(Selector::Simple(sel));
            self.consume_whitespace();
            match self.next_char() {
                Some(',') => {
                    self.skip();
                    self.consume_whitespace();
                    proof {
                        let rest = selectors_at(s, self.pos as int);
                        if rest is Some {
                            assert(acc + (seq![st] + (rest->0).0) =~= acc.push(st) + (rest->0).0);
                        }
                        acc = acc.push(st);
                    }
                },
                Some('{') => {
                    proof {
                        assert(acc + seq![st] =~= acc.push(st));
                        acc = acc.push(st);
                    }
                    break ;
                },
                Some(c) => {
                    return Err(ParseError::UnexpectedChar { pos: self.pos, found: c });
                },
                None => {
                    return Err(ParseError::UnexpectedEnd);
                },
            }
        }
        Ok(selectors)
    }

    /// Reads `name: value;`.
    fn parse_declaration(&mut self) -> (r: Result<Declaration, ParseError>)
        requires
            old(self).valid(),
        ensures
            final(self).valid(),
            final(self).input == old(self).input,
            final(self).source == old(self).source,
            final(self).pos >= old(self).pos,
            r is Ok ==> final(self).pos > old(self).pos,
            r is Ok <==> declaration_at(old(self).input@, old(self).pos as int) is Some,
            r matches Ok(d) ==> {
                let x = declaration_at(old(self).input@, old(self).pos as int)->0;
                declaration_is(d, (x.0, x.1)) && final(self).pos == x.2
            },
    {
        let name = self.parse_identifier();
        self.consume_whitespace();
        self.expect(':')?;
        self.consume_whitespace();
        let value = self.parse_value()?;
        self.consume_whitespace();
        self.expect(';')?;
        Ok(Declaration { name, value })
    }

    /// Reads declarations up to and past the closing `}`.
    fn parse_declarations(&mut self) -> (r: Result<Vec<Declaration>, ParseError>)
        requires
            old(self).valid(),
        ensures
            final(self).valid(),
            final(self).input == old(self).input,
            final(self).source == old(self).source,
            final(self).pos >= old(self).pos,
            r is Ok <==> declarations_at(old(self).input@, old(self).pos as int) is Some,
            r matches Ok(v) ==> {
                let x = declarations_at(old(self).input@, old(self).pos as int)->0;
                &&& v@.len() == x.0.len()
                &&& forall|k: int| 0 <= k < v@.len() ==> declaration_is(#[trigger] v@[k], x.0[k])
                &&& final(self).pos == x.1
            },
    {
        let mut declarations: Vec<Declaration> = Vec::new();
        let ghost mut acc: Seq<(Seq<char>, ValueTree)> = Seq::empty();
        assert(acc + Seq::<(Seq<char>, ValueTree)>::empty() =~= acc);
        loop
            invariant_except_break
                declarations@.len() == acc.len(),
                forall|k: int| 0 <= k < acc.len() ==> declaration_is(#[trigger] declarations@[k], acc[k]),
                declarations_at(self.input@, old(self).pos as int) == match declarations_at(
                    self.input@,
                    self.pos as int,
                ) {
                    Some((ds, f)) => Some((acc + ds, f)),
                    None => None,
                },
            invariant
                self.valid(),
                self.input == old(self).input,
                self.source == old(self).source,
                self.pos >= old(self).pos,
            ensures
                declarations@.len() == acc.len(),
                forall|k: int| 0 <= k < acc.len() ==> declaration_is(#[trigger] declarations@[k], acc[k]),
                declarations_at(self.input@, old(self).pos as int) == Some((acc, self.pos as int)),
            decreases self.input@.len() - self.pos,
        {
            let ghost s = self.input@;
            let ghost i = self.pos as int;
            self.consume_whitespace();
            match self.next_char() {
                Some('}') => {
                    self.skip();
                    assert(acc + Seq::<(Seq<char>, ValueTree)>::empty() =~= acc);
                    break ;
                },
                Some(_) => {
                    let ghost j = self.pos as int;
                    let d = self.parse_declaration()?;
                    proof {
                        let x = declaration_at(s, j)->0;
                        let rest = declarations_at(s, self.pos as int);
                        if rest is Some {
                            assert(acc + (seq![(x.0, x.1)] + (rest->0).0) =~= acc.push((x.0, x.1))
                                + (rest->0).0);
                        }
                        acc = acc.push((x.0, x.1));
                    }
                    declarations.push(d);
                },
                None => {
                    return Err(ParseError::UnexpectedEnd);
                },
            }
        }
        Ok(declarations)
    }

    fn parse_rule(&mut self) -> (r: Result<Rule, ParseError>)
        requires
            old(self).valid(),
        ensures
            final(self).valid(),
            final(self).input == old(self).input,
            final(self).source == old(self).source,
            final(self).pos >= old(self).pos,
            r is Ok ==> final(self).pos > old(self).pos,
            r is Ok <==> rule_at(old(self).input@, old(self).pos as int) is Some,
            r matches Ok(rule) ==> {
                let x = rule_at(old(self).input@, old(self).pos as int)->0;
                rule_is(rule, x.0) && final(self).pos == x.1
            },
    {
        let selectors = self.parse_selectors()?;
        self.skip();
        let declarations = self.parse_declarations()?;
        Ok(Rule { selectors, declarations })
    }

    fn parse_rules(&mut self) -> (r: Result<Vec<Rule>, ParseError>)
        requires
            old(self).valid(),
        ensures
            r is Ok <==> rules_at(old(self).input@, old(self).pos as int) is Some,
            r matches Ok(v) ==> {
                let x = rules_at(old(self).input@, old(self).pos as int)->0;
                &&& v@.len() == x.len()
                &&& forall|k: int| 0 <= k < v@.len() ==> rule_is(#[trigger] v@[k], x[k])
            },
    {
        let mut rules: Vec<Rule> = Vec::new();
        let ghost mut acc: Seq<RuleTree> = Seq::empty();
        loop
            invariant
                self.valid(),
                self.input == old(self).input,
                self.pos >= old(self).pos,
                rules@.len() == acc.len(),
                forall|k: int| 0 <= k < acc.len() ==> rule_is(#[trigger] rules@[k], acc[k]),
                rules_at(self.input@, old(self).pos as int) == match rules_at(
                    self.input@,
                    self.pos as int,
                ) {
                    Some(rs) => Some(acc + rs),
                    None => None,
                },
            ensures
                rules@.len() == acc.len(),
                forall|k: int| 0 <= k < acc.len() ==> rule_is(#[trigger] rules@[k], acc[k]),
                rules_at(self.input@, old(self).pos as int) == Some(acc),
            decreases self.input@.len() - self.pos,
        {
            let ghost s = self.input@;
            self.consume_whitespace();
            if self.eof() {
                assert(acc + Seq::<RuleTree>::empty() =~= acc);
                break ;
            }
            let ghost j = self.pos as int;
            let rule = self.parse_rule()?;
            proof {
                let x = rule_at(s, j)->0;
                let rest = rules_at(s, self.pos as int);
                if rest is Some {
                    assert(acc + (seq![x.0] + rest->0) =~= acc.push(x.0) + rest->0);
                }
                acc = acc.push(x.0);
            }
            rules.push(rule);
        }
        Ok(rules)
    }
}

/// Reads a style sheet; its rules keep their order in the source.
pub fn parse(source: String) -> (r: Result<Stylesheet, ParseError>)
    ensures
        r is Ok <==> stylesheet_of(source@) is Some,
        r matches Ok(s) ==> {
            let x = stylesheet_of(source@)->0;
            &&& s.rules@.len() == x.len()
            &&& forall|k: int| 0 <= k < x.len() ==> rule_is(#[trigger] s.rules@[k], x[k])
        },
{
    let mut parser = Parser::new(source);
    let rules = parser.parse_rules()?;
    Ok(Stylesheet { rules })
}

} // verus!
