use vstd::prelude::*;
use crate::css::{
    best_match, spec_less, specificity_less, Rule, Selector, SimpleSelector, Specificity,
    Stylesheet, Value,
};
use crate::dom::{ElementData, Node, NodeType};
use crate::strmap::StrMap;
use crate::chars::str_eq;

verus! {

/// Property names to their values.
pub type PropertyMap = StrMap<Value>;

/// A document node together with the property values that the style sheet gives it.
#[derive(Debug, PartialEq)]
pub struct StyledNode<'a> {
    pub node: &'a Node,
    pub specified_values: PropertyMap,
    pub children: Vec<StyledNode<'a>>,
}

#[derive(Debug, PartialEq, Eq)]
pub enum Display {
    Inline,
    Block,
    Hidden,
}

/// Rule `r` matches `e` and its declaration `d` sets property `p`.
pub open spec fn declares(e: ElementData, rules: Seq<Rule>, p: Seq<char>, r: int, d: int) -> bool {
    &&& 0 <= r < rules.len()
    &&& best_match(e, rules[r].selectors@) is Some
    &&& 0 <= d < rules[r].declarations@.len()
    &&& rules[r].declarations@[d].name@ == p
}

/// The specificity with which rule `rule` matches `e`.
pub open spec fn rule_specificity(e: ElementData, rule: Rule) -> Specificity {
    best_match(e, rule.selectors@)->0
}

/// In the cascade, declaration `d1` of rule `r1` is applied no later than declaration
/// `d2` of rule `r2`: by specificity first, then by position in the source.
pub open spec fn applied_before(
    e: ElementData,
    rules: Seq<Rule>,
    r1: int,
    d1: int,
    r2: int,
    d2: int,
) -> bool {
    let s1 = rule_specificity(e, rules[r1]);
    let s2 = rule_specificity(e, rules[r2]);
    spec_less(s1, s2) || (s1 == s2 && (r1 < r2 || (r1 == r2 && d1 <= d2)))
}

/// Declaration `d` of rule `r` is the one of property `p` applied last, among those of
/// rules before `rr` and those before `dd` in rule `rr`.
pub open spec fn wins_before(
    e: ElementData,
    rules: Seq<Rule>,
    p: Seq<char>,
    r: int,
    d: int,
    rr: int,
    dd: int,
) -> bool {
    &&& declares(e, rules, p, r, d)
    &&& (r < rr || (r == rr && d < dd))
    &&& forall|r2: int, d2: int|
        #![trigger declares(e, rules, p, r2, d2)]
        declares(e, rules, p, r2, d2) && (r2 < rr || (r2 == rr && d2 < dd)) ==> applied_before(
            e,
            rules,
            r2,
            d2,
            r,
            d,
        )
}

/// Declaration `d` of rule `r` is the one of property `p` that the cascade applies last.
pub open spec fn wins(e: ElementData, rules: Seq<Rule>, p: Seq<char>, r: int, d: int) -> bool {
    wins_before(e, rules, p, r, d, rules.len() as int, 0)
}

/// The property values that the rules give element `e`: for each property that a matching
/// rule declares, the value of the declaration that wins the cascade.
pub open spec fn cascade(e: ElementData, rules: Seq<Rule>) -> Map<Seq<char>, Value> {
    Map::new(
        |p: Seq<char>| exists|r: int, d: int| wins(e, rules, p, r, d),
        |p: Seq<char>|
            {
                let (r, d) = choose|r: int, d: int| wins(e, rules, p, r, d);
                rules[r].declarations@[d].value
            },
    )
}

/// The cascade has at most one winner for each property.
proof fn lemma_wins_unique(
    e: ElementData,
    rules: Seq<Rule>,
    p: Seq<char>,
    r1: int,
    d1: int,
    r2: int,
    d2: int,
)
    requires
        wins(e, rules, p, r1, d1),
        wins(e, rules, p, r2, d2),
    ensures
        r1 == r2 && d1 == d2,
{
    assert(declares(e, rules, p, r1, d1));
    assert(declares(e, rules, p, r2, d2));
}

/// Some declaration of `p` wins among those before position (`rr`, `dd`), if any declares it.
proof fn lemma_winner_exists_before(e: ElementData, rules: Seq<Rule>, p: Seq<char>, rr: int, dd: int)
    requires
        0 <= rr < rules.len(),
        0 <= dd <= rules[rr].declarations@.len(),
    ensures
        (exists|r: int, d: int| declares(e, rules, p, r, d) && (r < rr || (r == rr && d < dd)))
            ==> exists|r: int, d: int| wins_before(e, rules, p, r, d, rr, dd),
    decreases rr, dd,
{
    if exists|r: int, d: int| declares(e, rules, p, r, d) && (r < rr || (r == rr && d < dd)) {
        let (r0, d0) = choose|r: int, d: int|
            declares(e, rules, p, r, d) && (r < rr || (r == rr && d < dd));
        if dd > 0 {
            let pd = dd - 1;
            lemma_winner_exists_before(e, rules, p, rr, pd);
            let c = declares(e, rules, p, rr, pd);
            if exists|r: int, d: int| wins_before(e, rules, p, r, d, rr, pd) {
                let (wr, wd) = choose|r: int, d: int| wins_before(e, rules, p, r, d, rr, pd);
                if c && !spec_less(rule_specificity(e, rules[rr]), rule_specificity(e, rules[wr])) {
                    assert forall|r2: int, d2: int|
                        #[trigger] declares(e, rules, p, r2, d2) && (r2 < rr || (r2 == rr && d2
                            < dd)) implies applied_before(e, rules, r2, d2, rr, pd) by {
                        if !(r2 == rr && d2 == pd) {
                            assert(applied_before(e, rules, r2, d2, wr, wd));
                        }
                    }
                    assert(wins_before(e, rules, p, rr, pd, rr, dd));
                } else {
                    assert(wins_before(e, rules, p, wr, wd, rr, dd));
                }
            } else {
                if !(r0 == rr && d0 == pd) {
                    assert(declares(e, rules, p, r0, d0) && (r0 < rr || (r0 == rr && d0 < pd)));
                }
                assert forall|r2: int, d2: int|
                    #[trigger] declares(e, rules, p, r2, d2) && (r2 < rr || (r2 == rr && d2 < dd))
                        implies applied_before(e, rules, r2, d2, rr, pd) by {
                    if !(r2 == rr && d2 == pd) {
                        assert(declares(e, rules, p, r2, d2) && (r2 < rr || (r2 == rr && d2 < dd
                            - 1)));
                    }
                }
                assert(wins_before(e, rules, p, rr, pd, rr, dd));
            }
        } else {
            let pr = rr - 1;
            let m = rules[pr].declarations@.len() as int;
            lemma_winner_exists_before(e, rules, p, pr, m);
            assert(declares(e, rules, p, r0, d0) && (r0 < pr || (r0 == pr && d0 < m)));
            let (wr, wd) = choose|r: int, d: int| wins_before(e, rules, p, r, d, pr, m);
            assert forall|r2: int, d2: int|
                #[trigger] declares(e, rules, p, r2, d2) && (r2 < rr || (r2 == rr && d2 < dd))
                    implies applied_before(e, rules, r2, d2, wr, wd) by {
                assert(r2 < pr || (r2 == pr && d2 < m));
            }
            assert(wins_before(e, rules, p, wr, wd, rr, dd));
        }
    }
}

/// A property that some matching rule declares has a winning declaration.
proof fn lemma_winner_exists(e: ElementData, rules: Seq<Rule>, p: Seq<char>, r0: int, d0: int)
    requires
        declares(e, rules, p, r0, d0),
    ensures
        exists|r: int, d: int| wins(e, rules, p, r, d),
{
    let n = rules.len() as int;
    let last = n - 1;
    let m = rules[last].declarations@.len() as int;
    lemma_winner_exists_before(e, rules, p, last, m);
    assert(declares(e, rules, p, r0, d0) && (r0 < last || (r0 == last && d0 < m)));
    let (wr, wd) = choose|r: int, d: int| wins_before(e, rules, p, r, d, last, m);
    assert forall|r2: int, d2: int|
        #[trigger] declares(e, rules, p, r2, d2) && (r2 < n || (r2 == n && d2 < 0))
            implies applied_before(e, rules, r2, d2, wr, wd) by {
        assert(r2 < last || (r2 == last && d2 < m));
    }
    assert(wins(e, rules, p, wr, wd));
}

/// The cascade law. Let two rules that match `e` both declare property `p`: declaration `d1`
/// of rule `r1` and declaration `d2` of rule `r2`, where rule `r2` matches with higher
/// specificity, or with the same specificity and comes later in the source. Then `e` gets a
/// value for `p`, and it never comes from the first declaration; when these two are the only
/// declarations of `p`, the value is that of the second.
pub proof fn lemma_cascade_order(
    e: ElementData,
    rules: Seq<Rule>,
    p: Seq<char>,
    r1: int,
    d1: int,
    r2: int,
    d2: int,
)
    requires
        declares(e, rules, p, r1, d1),
        declares(e, rules, p, r2, d2),
        spec_less(rule_specificity(e, rules[r1]), rule_specificity(e, rules[r2])) || (
        rule_specificity(e, rules[r1]) == rule_specificity(e, rules[r2]) && r1 < r2),
    ensures
        cascade(e, rules).contains_key(p),
        forall|r: int, d: int| wins(e, rules, p, r, d) ==> !(r == r1 && d == d1),
        (forall|r: int, d: int|
            declares(e, rules, p, r, d) ==> (r == r1 && d == d1) || (r == r2 && d == d2))
            ==> cascade(e, rules)[p] == rules[r2].declarations@[d2].value,
{
    lemma_winner_exists(e, rules, p, r1, d1);
    let (wr, wd) = choose|r: int, d: int| wins(e, rules, p, r, d);
    assert forall|r: int, d: int| wins(e, rules, p, r, d) implies !(r == r1 && d == d1) by {
        if r == r1 && d == d1 {
            assert(applied_before(e, rules, r2, d2, r1, d1));
        }
    }
    if forall|r: int, d: int|
        declares(e, rules, p, r, d) ==> (r == r1 && d == d1) || (r == r2 && d == d2) {
        assert(declares(e, rules, p, wr, wd));
        assert(wr == r2 && wd == d2);
    }
}

/// Whether `elem` satisfies every condition of `selector`.
fn matches_simple_selector(elem: &ElementData, selector: &SimpleSelector) -> (r: bool)
    ensures
        r == selector.spec_matches(*elem),
{
    if let Some(name) = &selector.tag_name {
        if *name != elem.tag_name {
            return false;
        }
    }
    if let Some(id) = &selector.id {
        match elem.id() {
            Some(v) => {
                if *v != *id {
                    return false;
                }
            },
            None => {
                return false;
            },
        }
    }
    let mut k: usize = 0;
    while k < selector.class.len()
        invariant
            k <= selector.class@.len(),
            forall|j: int| 0 <= j < k ==> elem.has_class_spec(#[trigger] selector.class@[j]@),
        decreases selector.class@.len() - k,
    {
        if !elem.has_class(selector.class[k].as_str()) {
            return false;
        }
        k = k + 1;
    }
    true
}

fn matches(elem: &ElementData, selector: &Selector) -> (r: bool)
    ensures
        r == selector.spec_matches(*elem),
{
    match selector {
        Selector::Simple(s) => matches_simple_selector(elem, s),
    }
}

/// The highest specificity among the selectors of `rule` that match `elem`, if one does.
fn match_rule(elem: &ElementData, rule: &Rule) -> (r: Option<Specificity>)
    ensures
        r == best_match(*elem, rule.selectors@),
{
    let n = rule.selectors.len();
    let mut best: Option<Specificity> = None;
    let mut i: usize = n;
    assert(rule.selectors@.subrange(n as int, n as int) =~= Seq::<Selector>::empty());
    while i > 0
        invariant
            n == rule.selectors@.len(),
            i <= n,
            best == best_match(*elem, rule.selectors@.subrange(i as int, n as int)),
        decreases i,
    {
        let ghost rest = rule.selectors@.subrange(i - 1, n as int);
        assert(rest.drop_first() =~= rule.selectors@.subrange(i as int, n as int));
        let sel = &rule.selectors[i - 1];
        if matches(elem, sel) {
            let s = sel.specificity();
            let keep = match best {
                Some(t) => specificity_less(s, t),
                None => false,
            };
            if !keep {
                best = Some(s);
            }
        }
        i = i - 1;
    }
    assert(rule.selectors@.subrange(0, n as int) =~= rule.selectors@);
    best
}

/// What holds after the declarations of the rules before `rr`, and those before `dd` in
/// rule `rr`, have been applied: `win` names the declaration that each property has from.
spec fn cascade_inv(
    e: ElementData,
    rules: Seq<Rule>,
    values: Map<Seq<char>, Value>,
    best: Map<Seq<char>, Specificity>,
    win: Map<Seq<char>, (int, int)>,
    rr: int,
    dd: int,
) -> bool {
    &&& forall|p: Seq<char>| #[trigger] values.contains_key(p) <==> win.contains_key(p)
    &&& forall|p: Seq<char>| #[trigger] best.contains_key(p) <==> win.contains_key(p)
    &&& forall|p: Seq<char>|
        #[trigger] win.contains_key(p) ==> {
            &&& wins_before(e, rules, p, win[p].0, win[p].1, rr, dd)
            &&& values[p] == rules[win[p].0].declarations@[win[p].1].value
            &&& best[p] == rule_specificity(e, rules[win[p].0])
        }
    &&& forall|p: Seq<char>, r: int, d: int|
        #[trigger] declares(e, rules, p, r, d) && (r < rr || (r == rr && d < dd))
            ==> win.contains_key(p)
}

/// The property values that `stylesheet` gives `elem`: the declarations of the matching
/// rules applied in order of specificity, and of source position among equals.
fn specified_values(elem: &ElementData, stylesheet: &Stylesheet) -> (r: PropertyMap)
    ensures
        r@ == cascade(*elem, stylesheet.rules@),
        forall|p: Seq<char>|
            r@.contains_key(p) <==> exists|i: int, j: int|
                declares(*elem, stylesheet.rules@, p, i, j),
{
    let ghost e = *elem;
    let ghost rules = stylesheet.rules@;
    let mut values: PropertyMap = StrMap::new();
    let mut best: StrMap<Specificity> = StrMap::new();
    let ghost mut win: Map<Seq<char>, (int, int)> = Map::empty();
    let n = stylesheet.rules.len();
    let mut ri: usize = 0;
    while ri < n
        invariant
            n == rules.len(),
            ri <= n,
            rules == stylesheet.rules@,
            e == *elem,
            cascade_inv(e, rules, values@, best@, win, ri as int, 0),
        decreases n - ri,
    {
        let rule = &stylesheet.rules[ri];
        match match_rule(elem, rule) {
            Some(s) => {
                let m = rule.declarations.len();
                let mut di: usize = 0;
                while di < m
                    invariant
                        n == rules.len(),
                        ri < n,
                        di <= m,
                        *rule == rules[ri as int],
                        m == rule.declarations@.len(),
                        rules == stylesheet.rules@,
                        e == *elem,
                        best_match(e, rules[ri as int].selectors@) == Some(s),
                        cascade_inv(e, rules, values@, best@, win, ri as int, di as int),
                    decreases m - di,
                {
                    let decl = &rule.declarations[di];
                    let ghost p0 = decl.name@;
                    let ghost old_values = values@;
                    let ghost old_best = best@;
                    let ghost old_win = win;
                    let take = match best.get(decl.name.as_str()) {
                        None => true,
                        Some(b) => !specificity_less(s, *b),
                    };
                    assert(declares(e, rules, p0, ri as int, di as int));
                    if take {
                        values.insert(decl.name.clone(), decl.value.cloned());
                        best.insert(decl.name.clone(), s);
                        proof {
                            win = win.insert(p0, (ri as int, di as int));
                        }
                    }
                    proof {
                        assert forall|p: Seq<char>| #[trigger]
                            win.contains_key(p) implies wins_before(
                            e,
                            rules,
                            p,
                            win[p].0,
                            win[p].1,
                            ri as int,
                            di + 1,
                        ) by {
                            let (wr, wd) = win[p];
                            assert forall|r2: int, d2: int|
                                #[trigger] declares(e, rules, p, r2, d2) && (r2 < ri || (r2 == ri
                                    && d2 < di + 1)) implies applied_before(
                                e,
                                rules,
                                r2,
                                d2,
                                wr,
                                wd,
                            ) by {
                                if r2 == ri && d2 == di {
                                    if p == p0 && !take {
                                        assert(old_win.contains_key(p0));
                                    }
                                } else {
                                    if p == p0 && take && old_win.contains_key(p0) {
                                        let (or, od) = old_win[p0];
                                        assert(applied_before(e, rules, r2, d2, or, od));
                                    }
                                }
                            }
                        }
                    }
                    di = di + 1;
                }
                proof {
                    assert forall|p: Seq<char>, r: int, d: int|
                        #[trigger] declares(e, rules, p, r, d) && (r < ri + 1 || (r == ri + 1 && d
                            < 0)) implies win.contains_key(p) by {
                        if r == ri {
                            assert(d < m);
                        }
                    }
                    assert forall|p: Seq<char>| #[trigger]
                        win.contains_key(p) implies wins_before(
                        e,
                        rules,
                        p,
                        win[p].0,
                        win[p].1,
                        ri + 1,
                        0,
                    ) by {
                        let (wr, wd) = win[p];
                        assert forall|r2: int, d2: int|
                            #[trigger] declares(e, rules, p, r2, d2) && (r2 < ri + 1 || (r2 == ri
                                + 1 && d2 < 0)) implies applied_before(e, rules, r2, d2, wr, wd) by {
                            if r2 == ri {
                                assert(d2 < m);
                            }
                        }
                    }
                }
            },
            None => {
                proof {
                    assert forall|p: Seq<char>| #[trigger]
                        win.contains_key(p) implies wins_before(
                        e,
                        rules,
                        p,
                        win[p].0,
                        win[p].1,
                        ri + 1,
                        0,
                    ) by {
                        let (wr, wd) = win[p];
                        assert forall|r2: int, d2: int|
                            #[trigger] declares(e, rules, p, r2, d2) && (r2 < ri + 1 || (r2 == ri
                                + 1 && d2 < 0)) implies applied_before(e, rules, r2, d2, wr, wd) by {
                            if r2 == ri {
                                assert(best_match(e, rules[r2].selectors@) is None);
                            }
                        }
                    }
                }
            },
        }
        ri = ri + 1;
    }
    proof {
        let c = cascade(e, rules);
        assert forall|p: Seq<char>| #[trigger] values@.contains_key(p) == c.contains_key(p) by {
            if win.contains_key(p) {
                assert(wins(e, rules, p, win[p].0, win[p].1));
            }
            if c.contains_key(p) {
                let (r, d) = choose|r: int, d: int| wins(e, rules, p, r, d);
                assert(declares(e, rules, p, r, d));
            }
        }
        assert forall|p: Seq<char>| #[trigger] c.contains_key(p) implies values@[p] == c[p] by {
            let (r, d) = choose|r: int, d: int| wins(e, rules, p, r, d);
            assert(declares(e, rules, p, r, d));
            lemma_wins_unique(e, rules, p, r, d, win[p].0, win[p].1);
        }
        assert(values@ =~= c);
        assert forall|p: Seq<char>|
            values@.contains_key(p) <==> exists|i: int, j: int| declares(e, rules, p, i, j) by {
            if values@.contains_key(p) {
                assert(declares(e, rules, p, win[p].0, win[p].1));
            }
        }
    }
    values
}

/// The display kind that a `display` value gives: the keyword `block` a block box, the
/// keyword `none` no box at all, anything else an inline box.
pub open spec fn display_of(v: Option<Value>) -> Display {
    match v {
        Some(Value::Keyword(s)) => if s@ == "block"@ {
            Display::Block
        } else if s@ == "none"@ {
            Display::Hidden
        } else {
            Display::Inline
        },
        _ => Display::Inline,
    }
}

/// `sn` is the styled form of `n` under `stylesheet`, all the way down.
pub open spec fn styled_from<'a>(sn: StyledNode<'a>, n: Node, stylesheet: Stylesheet) -> bool
    decreases n,
{
    &&& *sn.node == n
    &&& sn.specified_values@ == match n.node_type {
        NodeType::Element(e) => cascade(e, stylesheet.rules@),
        NodeType::Text(_) => Map::empty(),
    }
    &&& sn.children@.len() == n.children@.len()
    &&& forall|i: int|
        0 <= i < n.children@.len() ==> styled_from(
            #[trigger] sn.children@[i],
            n.children@[i],
            stylesheet,
        )
}

/// The styled tree of `root`: each element gets the values of the rules that match it,
/// each text node none; nothing is inherited.
pub fn style_tree<'a>(root: &'a Node, stylesheet: &'a Stylesheet) -> (r: StyledNode<'a>)
    ensures
        styled_from(r, *root, *stylesheet),
    decreases root,
{
    let specified_values = match &root.node_type {
        NodeType::Element(elem) => specified_values(elem, stylesheet),
        NodeType::Text(_) => {
            let m: PropertyMap = StrMap::new();
            m
        },
    };
    let mut children: Vec<StyledNode<'a>> = Vec::new();
    let n = root.children.len();
    let mut i: usize = 0;
    while i < n
        invariant
            n == root.children@.len(),
            i <= n,
            children@.len() == i,
            forall|j: int|
                0 <= j < i ==> styled_from(
                    #[trigger] children@[j],
                    root.children@[j],
                    *stylesheet,
                ),
        decreases n - i,
    {
        assert(decreases_to!(*root => root.children@[i as int]));
        let child = style_tree(&root.children[i], stylesheet);
        children.push(child);
        i = i + 1;
    }
    StyledNode { node: root, specified_values, children }
}

impl<'a> StyledNode<'a> {
    /// The value of property `name`, if the node has one.
    pub fn value(&self, name: &str) -> (r: Option<Value>)
        ensures
            r == self.specified_values@.get(name@),
    {
        match self.specified_values.get(name) {
            Some(v) => Some(v.cloned()),
            None => None,
        }
    }

    /// The value of `name`, else that of `fallback_name`, else `default`.
    pub fn lookup(&self, name: &str, fallback_name: &str, default: &Value) -> (r: Value)
        ensures
            r == if self.specified_values@.contains_key(name@) {
                self.specified_values@[name@]
            } else if self.specified_values@.contains_key(fallback_name@) {
                self.specified_values@[fallback_name@]
            } else {
                *default
            },
    {
        match self.value(name) {
            Some(v) => v,
            None => match self.value(fallback_name) {
                Some(v) => v,
                None => default.cloned(),
            },
        }
    }

    /// The node's display kind, read from its `display` property.
    pub fn display(&self) -> (r: Display)
        ensures
            r == display_of(self.specified_values@.get("display"@)),
    {
        match self.value("display") {
            Some(Value::Keyword(s)) => {
                if str_eq(s.as_str(), "block") {
                    Display::Block
                } else if str_eq(s.as_str(), "none") {
                    Display::Hidden
                } else {
                    Display::Inline
                }
            },
            _ => Display::Inline,
        }
    }
}

} // verus!
