use vstd::prelude::*;
use crate::parser::{lemma_run_end, run_end, ParseError, Parser, Run};
use crate::dom::{elem, text, AttrMap, Node, NodeType};

verus! {

/// A document tree as the grammar describes it.
pub enum Tree {
    Text(Seq<char>),
    Element(Seq<char>, Map<Seq<char>, Seq<char>>, Seq<Tree>),
}

/// `</` stands at `i`.
pub open spec fn closing_at(s: Seq<char>, i: int) -> bool {
    0 <= i && i + 1 < s.len() && s[i] == '<' && s[i + 1] == '/'
}

/// A quoted value at `i`: the quote that opens it closes it, with no escapes. Gives the
/// value and the position after the closing quote.
pub open spec fn attr_value_at(s: Seq<char>, i: int) -> Option<(Seq<char>, int)> {
    if 0 <= i < s.len() && (s[i] == '"' || s[i] == '\'') {
        let e = run_end(s, i + 1, Run::Until(s[i]));
        if e < s.len() {
            Some((s.subrange(i + 1, e), e + 1))
        } else {
            None
        }
    } else {
        None
    }
}

/// An attribute `name="value"` at `i`: its name, its value and the position after it.
pub open spec fn attr_at(s: Seq<char>, i: int) -> Option<(Seq<char>, Seq<char>, int)> {
    let k = run_end(s, i, Run::Name);
    if 0 <= i <= k < s.len() && s[k] == '=' {
        match attr_value_at(s, k + 1) {
            Some((v, e)) => Some((s.subrange(i, k), v, e)),
            None => None,
        }
    } else {
        None
    }
}

/// The attributes from `i` up to the `>` of an opening tag, added to `m` in order, so
/// that a later one of the same name wins; and the position of that `>`.
pub open spec fn attrs_at(s: Seq<char>, i: int, m: Map<Seq<char>, Seq<char>>) -> Option<
    (Map<Seq<char>, Seq<char>>, int),
>
    decreases s.len() - i,
{
    let j = run_end(s, i, Run::Space);
    if !(0 <= i <= j < s.len()) {
        None
    } else if s[j] == '>' {
        Some((m, j))
    } else {
        match attr_at(s, j) {
            Some((n, v, e)) => if i < e <= s.len() {
                attrs_at(s, e, m.insert(n, v))
            } else {
                None
            },
            None => None,
        }
    }
}

/// The node at `i`: an element where `<` stands, else the text up to the next `<` or the
/// end; and the position after it.
pub open spec fn node_at(s: Seq<char>, i: int) -> Option<(Tree, int)>
    decreases s.len() - i, 1int,
{
    if 0 <= i < s.len() && s[i] == '<' {
        element_at(s, i)
    } else {
        let e = run_end(s, i, Run::Until('<'));
        Some((Tree::Text(s.subrange(i, e)), e))
    }
}

/// The nodes from `i` on, each after skipped whitespace, up to the end of the text or a
/// `</`; and the position where they stop.
pub open spec fn nodes_at(s: Seq<char>, i: int) -> Option<(Seq<Tree>, int)>
    decreases s.len() - i, 2int,
{
    let j = run_end(s, i, Run::Space);
    if !(0 <= i <= j <= s.len()) {
        None
    } else if j == s.len() || closing_at(s, j) {
        Some((Seq::empty(), j))
    } else {
        match node_at(s, j) {
            Some((t, e)) => if j < e <= s.len() {
                match nodes_at(s, e) {
                    Some((ts, f)) => Some((seq![t] + ts, f)),
                    None => None,
                }
            } else {
                None
            },
            None => None,
        }
    }
}

/// The element at `i`: `<`, a name, attributes, `>`, the child nodes, then `</`, the same
/// name and `>`; and the position after it.
pub open spec fn element_at(s: Seq<char>, i: int) -> Option<(Tree, int)>
    decreases s.len() - i, 0int,
{
    if !(0 <= i < s.len() && s[i] == '<') {
        None
    } else {
        let k = run_end(s, i + 1, Run::Name);
        let tag = s.subrange(i + 1, k);
        match attrs_at(s, k, Map::empty()) {
            Some((m, g)) => if i < g < s.len() {
                match nodes_at(s, g + 1) {
                    Some((cs, h)) => {
                        let k2 = run_end(s, h + 2, Run::Name);
                        if closing_at(s, h) && s.subrange(h + 2, k2) == tag && k2 < s.len()
                            && s[k2] == '>' {
                            Some((Tree::Element(tag, m, cs), k2 + 1))
                        } else {
                            None
                        }
                    },
                    None => None,
                }
            } else {
                None
            },
            None => None,
        }
    }
}

/// The tree of a whole document: the nodes of the text, which must be read to its end; a
/// single one is the tree itself, any other number stand under an `html` element
/// without attributes.
pub open spec fn document(s: Seq<char>) -> Option<Tree> {
    match nodes_at(s, 0) {
        Some((ts, e)) => if e == s.len() {
            if ts.len() == 1 {
                Some(ts[0])
            } else {
                Some(Tree::Element("html"@, Map::empty(), ts))
            }
        } else {
            None
        },
        None => None,
    }
}

/// The attributes of an element, with their values as character sequences.
pub open spec fn attrs_view(a: AttrMap) -> Map<Seq<char>, Seq<char>> {
    Map::new(|k: Seq<char>| a@.contains_key(k), |k: Seq<char>| a@[k]@)
}

/// Node `n` is tree `t`: same kinds, names, attributes and text, all the way down.
pub open spec fn node_is(n: Node, t: Tree) -> bool
    decreases n,
{
    match t {
        Tree::Text(x) => n.node_type matches NodeType::Text(y) && y@ == x && n.children@.len()
            == 0,
        Tree::Element(tag, m, cs) => {
            &&& n.node_type matches NodeType::Element(e) && e.tag_name@ == tag && attrs_view(
                e.attributes,
            ) == m
            &&& n.children@.len() == cs.len()
            &&& forall|i: int| 0 <= i < cs.len() ==> node_is(#[trigger] n.children@[i], cs[i])
        },
    }
}

/// The nodes `acc` put in front of the nodes in `r`.
pub open spec fn prepend(acc: Seq<Tree>, r: Option<(Seq<Tree>, int)>) -> Option<(Seq<Tree>, int)> {
    match r {
        Some((ts, f)) => Some((acc + ts, f)),
        None => None,
    }
}

impl Parser {
    /// Whether `</` stands at the current position.
    fn at_closing_tag(&self) -> (r: bool)
        requires
            self.valid(),
        ensures
            r == closing_at(self.input@, self.pos as int),
    {
        self.pos < self.input.len() && self.input.len() - self.pos >= 2 && self.input[self.pos]
            == '<' && self.input[self.pos + 1] == '/'
    }

    /// Reads a quoted attribute value; the quote that opens it also closes it.
    fn parse_attr_value(&mut self) -> (r: Result<String, ParseError>)
        requires
            old(self).valid(),
        ensures
            final(self).valid(),
            final(self).input == old(self).input,
            final(self).source == old(self).source,
            final(self).pos >= old(self).pos,
            r is Ok <==> attr_value_at(old(self).input@, old(self).pos as int) is Some,
            r matches Ok(v) ==> {
                let a = attr_value_at(old(self).input@, old(self).pos as int)->0;
                v@ == a.0 && final(self).pos == a.1
            },
    {
        let at = self.pos;
        let open_quote = self.consume_char()?;
        if open_quote != '"' && open_quote != '\'' {
            return Err(ParseError::UnexpectedChar { pos: at, found: open_quote });
        }
        let value = self.consume_while(Run::Until(open_quote));
        proof {
            lemma_run_end(self.input@, at + 1, Run::Until(open_quote));
        }
        self.expect(open_quote)?;
        Ok(value)
    }

    /// Reads `name="value"`.
    fn parse_attr(&mut self) -> (r: Result<(String, String), ParseError>)
        requires
            old(self).valid(),
        ensures
            final(self).valid(),
            final(self).input == old(self).input,
            final(self).source == old(self).source,
            final(self).pos >= old(self).pos,
            r is Ok <==> attr_at(old(self).input@, old(self).pos as int) is Some,
            r matches Ok((n, v)) ==> {
                let a = attr_at(old(self).input@, old(self).pos as int)->0;
                n@ == a.0 && v@ == a.1 && final(self).pos == a.2
            },
            r is Ok ==> final(self).pos > old(self).pos,
    {
        let name = self.parse_tag_name();
        self.expect('=')?;
        let value = self.parse_attr_value()?;
        Ok((name, value))
    }

    /// Reads attributes up to the `>` that ends an opening tag; a later attribute of the
    /// same name replaces an earlier one.
    fn parse_attributes(&mut self) -> (r: Result<AttrMap, ParseError>)
        requires
            old(self).valid(),
        ensures
            final(self).valid(),
            final(self).input == old(self).input,
            final(self).source == old(self).source,
            final(self).pos >= old(self).pos,
            r is Ok <==> attrs_at(old(self).input@, old(self).pos as int, Map::empty()) is Some,
            r matches Ok(a) ==> {
                let x = attrs_at(old(self).input@, old(self).pos as int, Map::empty())->0;
                attrs_view(a) == x.0 && final(self).pos == x.1
            },
            r is Ok ==> final(self).pos < final(self).input@.len() && final(self).input@[final(self).pos as int]
                == '>',
    {
        let mut attributes: AttrMap = AttrMap::new();
        assert(attrs_view(attributes) =~= Map::<Seq<char>, Seq<char>>::empty());
        loop
            invariant
                self.valid(),
                self.input == old(self).input,
                self.source == old(self).source,
                self.pos >= old(self).pos,
                attrs_at(self.input@, old(self).pos as int, Map::empty()) == attrs_at(
                    self.input@,
                    self.pos as int,
                    attrs_view(attributes),
                ),
            ensures
                self.pos < self.input@.len() && self.input@[self.pos as int] == '>',
                attrs_at(self.input@, old(self).pos as int, Map::empty()) == Some(
                    (attrs_view(attributes), self.pos as int),
                ),
            decreases self.input@.len() - self.pos,
        {
            let ghost i = self.pos as int;
            self.consume_whitespace();
            match self.next_char() {
                Some('>') => {
                    break ;
                },
                Some(_) => {},
                None => {
                    return Err(ParseError::UnexpectedEnd);
                },
            }
            let (name, value) = self.parse_attr()?;
            let ghost m = attrs_view(attributes);
            attributes.insert(name, value);
            assert(attrs_view(attributes) =~= m.insert(name@, value@));
        }
        Ok(attributes)
    }

    /// Reads a text node: everything up to the next `<` or the end.
    fn parse_text(&mut self) -> (r: Node)
        requires
            old(self).valid(),
        ensures
            final(self).valid(),
            final(self).input == old(self).input,
            final(self).source == old(self).source,
            final(self).pos == run_end(old(self).input@, old(self).pos as int, Run::Until('<')),
            final(self).pos >= old(self).pos,
            r.children@.len() == 0,
            r.node_type matches NodeType::Text(t) && t@ == old(self).input@.subrange(
                old(self).pos as int,
                final(self).pos as int,
            ),
    {
        text(self.consume_while(Run::Until('<')))
    }

    /// Reads an element, its children and its closing tag.
    fn parse_element(&mut self) -> (r: Result<Node, ParseError>)
        requires
            old(self).valid(),
        ensures
            final(self).valid(),
            final(self).input == old(self).input,
            final(self).source == old(self).source,
            final(self).pos >= old(self).pos,
            r is Ok <==> element_at(old(self).input@, old(self).pos as int) is Some,
            r matches Ok(n) ==> {
                let x = element_at(old(self).input@, old(self).pos as int)->0;
                node_is(n, x.0) && final(self).pos == x.1 && final(self).pos > old(self).pos
            },
        decreases old(self).input@.len() - old(self).pos, 0nat,
    {
        let ghost s = self.input@;
        let ghost i = self.pos as int;
        self.expect('<')?;
        let tag_name = self.parse_tag_name();
        let attrs = self.parse_attributes()?;
        self.expect('>')?;
        let children = self.parse_nodes()?;
        let ghost h = self.pos as int;
        if !self.at_closing_tag() {
            let at = self.pos;
            return match self.consume_char() {
                Ok(c) => Err(ParseError::UnexpectedChar { pos: at, found: c }),
                Err(e) => Err(e),
            };
        }
        self.skip();
        self.skip();
        let close = self.parse_tag_name();
        if close != tag_name {
            return Err(ParseError::MismatchedClosingTag { pos: self.pos });
        }
        self.expect('>')?;
        let n = elem(tag_name, attrs, children);
        assert(node_is(n, (element_at(s, i)->0).0));
        Ok(n)
    }

    /// Reads one node, an element or a text.
    fn parse_node(&mut self) -> (r: Result<Node, ParseError>)
        requires
            old(self).valid(),
            old(self).pos < old(self).input@.len(),
        ensures
            final(self).valid(),
            final(self).input == old(self).input,
            final(self).source == old(self).source,
            final(self).pos >= old(self).pos,
            r is Ok <==> node_at(old(self).input@, old(self).pos as int) is Some,
            r matches Ok(n) ==> {
                let x = node_at(old(self).input@, old(self).pos as int)->0;
                node_is(n, x.0) && final(self).pos == x.1 && final(self).pos > old(self).pos
            },
        decreases old(self).input@.len() - old(self).pos, 1nat,
    {
        if self.input[self.pos] == '<' {
            self.parse_element()
        } else {
            let ghost start = self.pos as int;
            proof {
                lemma_run_end(self.input@, start, Run::Until('<'));
                lemma_run_end(self.input@, start + 1, Run::Until('<'));
            }
            let n = self.parse_text();
            Ok(n)
        }
    }

    /// Reads nodes up to the end of the input or to a closing tag.
    fn parse_nodes(&mut self) -> (r: Result<Vec<Node>, ParseError>)
        requires
            old(self).valid(),
        ensures
            final(self).valid(),
            final(self).input == old(self).input,
            final(self).source == old(self).source,
            final(self).pos >= old(self).pos,
            r is Ok <==> nodes_at(old(self).input@, old(self).pos as int) is Some,
            r matches Ok(v) ==> {
                let x = nodes_at(old(self).input@, old(self).pos as int)->0;
                &&& v@.len() == x.0.len()
                &&& forall|i: int| 0 <= i < v@.len() ==> node_is(#[trigger] v@[i], x.0[i])
                &&& final(self).pos == x.1
            },
        decreases old(self).input@.len() - old(self).pos, 2nat,
    {
        let mut nodes: Vec<Node> = Vec::new();
        let ghost mut acc: Seq<Tree> = Seq::empty();
        assert(acc + Seq::<Tree>::empty() =~= Seq::<Tree>::empty());
        loop
            invariant
                self.valid(),
                self.input == old(self).input,
                self.source == old(self).source,
                self.pos >= old(self).pos,
                nodes@.len() == acc.len(),
                forall|i: int| 0 <= i < nodes@.len() ==> node_is(#[trigger] nodes@[i], acc[i]),
                nodes_at(self.input@, old(self).pos as int) == prepend(
                    acc,
                    nodes_at(self.input@, self.pos as int),
                ),
            ensures
                nodes@.len() == acc.len(),
                forall|i: int| 0 <= i < nodes@.len() ==> node_is(#[trigger] nodes@[i], acc[i]),
                nodes_at(self.input@, old(self).pos as int) == Some((acc, self.pos as int)),
            decreases self.input@.len() - self.pos,
        {
            let ghost i = self.pos as int;
            self.consume_whitespace();
            if self.eof() || self.at_closing_tag() {
                assert(acc + Seq::<Tree>::empty() =~= acc);
                break ;
            }
            let node = self.parse_node()?;
            let ghost t = (node_at(self.input@, run_end(self.input@, i, Run::Space))->0).0;
            proof {
                let rest = nodes_at(self.input@, self.pos as int);
                if rest is Some {
                    assert(acc + (seq![t] + (rest->0).0) =~= acc.push(t) + (rest->0).0);
                }
                acc = acc.push(t);
            }
            nodes.push(node);
        }
        Ok(nodes)
    }
}

/// Reads a document. A single node at the top level is the result itself; any other
/// number stand under an `html` element. The whole text must be read.
pub fn parse(source: String) -> (r: Result<Node, ParseError>)
    ensures
        r is Ok <==> document(source@) is Some,
        r matches Ok(n) ==> node_is(n, document(source@)->0),
{
    let mut parser = Parser::new(source);
    let mut nodes = parser.parse_nodes()?;
    if !parser.eof() {
        return Err(ParseError::UnexpectedChar { pos: parser.pos, found: parser.input[parser.pos] });
    }
    if nodes.len() == 1 {
        let n = nodes.swap_remove(0);
        Ok(n)
    } else {
        let attrs = AttrMap::new();
        assert(attrs_view(attrs) =~= Map::<Seq<char>, Seq<char>>::empty());
        let n = elem("html".to_owned(), attrs, nodes);
        Ok(n)
    }
}

} // verus!
