//! The parsed form of a template, and the call into `tl` that parses it.
use vstd::prelude::*;
use vstd::multiset::Multiset;
use vstd::string::StringSliceAdditionalSpecFns;
use tl::Node;

verus! {

/// An element: its name, its attributes in the order `tl` lists them, and
/// its content, parsed again from the markup `tl` gives for it.
#[derive(Debug)]
pub struct HtmlTag {
    pub name: String,
    pub attributes: Vec<(String, Option<String>)>,
    pub children: Vec<HtmlNode>,
}

/// A node of a parsed template.
#[derive(Debug)]
pub enum HtmlNode {
    Tag(HtmlTag),
    Text(String),
    Comment(String),
}

/// An attribute as characters.
pub type AttrModel = (Seq<char>, Option<Seq<char>>);

/// The attributes of a tag as characters.
pub open spec fn attrs_model(a: Seq<(String, Option<String>)>) -> Seq<AttrModel> {
    Seq::new(
        a.len(),
        |i: int|
            (
                a[i].0@,
                match a[i].1 {
                    Some(v) => Some(v@),
                    None => None,
                },
            ),
    )
}

/// Markup as `tl` holds it: a tag with its attributes in the order `tl`
/// lists them, a run of text, or a comment.
pub enum Markup {
    Tag(Seq<char>, Seq<AttrModel>, Seq<Markup>),
    Text(Seq<char>),
    Comment(Seq<char>),
}

/// Markup as a function of the text: a tag's attributes as a multiset, and
/// also in order where that order is fixed: `tl` keeps a tag's first two
/// attributes other than `id` and `class` inline, in the order of the text,
/// but moves them into a `HashMap` at the third.
pub enum MarkupShape {
    Tag(Seq<char>, Multiset<AttrModel>, Option<Seq<AttrModel>>, Seq<MarkupShape>),
    Text(Seq<char>),
    Comment(Seq<char>),
}

/// Whether markup written out in one order of its attributes fits a shape.
pub open spec fn markup_matches(m: Markup, t: MarkupShape) -> bool
    decreases m,
{
    match m {
        Markup::Tag(name, attrs, kids) => match t {
            MarkupShape::Tag(n2, ms, order, ks) => {
                &&& name == n2
                &&& attrs.to_multiset() == ms
                &&& (order matches Some(o) ==> attrs == o)
                &&& kids.len() == ks.len()
                &&& forall|i: int| 0 <= i < kids.len() ==> markup_matches(#[trigger] kids[i], ks[i])
            },
            _ => false,
        },
        Markup::Text(s) => t == MarkupShape::Text(s),
        Markup::Comment(s) => t == MarkupShape::Comment(s),
    }
}

/// Whether a sequence of markup fits a sequence of shapes.
pub open spec fn markups_match(ms: Seq<Markup>, ts: Seq<MarkupShape>) -> bool {
    &&& ms.len() == ts.len()
    &&& forall|i: int| 0 <= i < ms.len() ==> markup_matches(#[trigger] ms[i], ts[i])
}

/// The tags `tl` writes without content or closing tag.
pub open spec fn is_void_name(n: Seq<char>) -> bool {
    ||| n == "area"@
    ||| n == "base"@
    ||| n == "br"@
    ||| n == "col"@
    ||| n == "command"@
    ||| n == "embed"@
    ||| n == "hr"@
    ||| n == "img"@
    ||| n == "input"@
    ||| n == "keygen"@
    ||| n == "link"@
    ||| n == "meta"@
    ||| n == "param"@
    ||| n == "source"@
    ||| n == "track"@
    ||| n == "wbr"@
}

/// How `tl` writes one attribute: ` key="value"`, or ` key` without value.
pub open spec fn attr_markup(a: AttrModel) -> Seq<char> {
    match a.1 {
        Some(v) => seq![' '] + a.0 + seq!['=', '"'] + v + seq!['"'],
        None => seq![' '] + a.0,
    }
}

/// How `tl` writes a tag's attributes, in order.
pub open spec fn attrs_markup(a: Seq<AttrModel>) -> Seq<char>
    decreases a.len(),
{
    if a.len() == 0 {
        Seq::empty()
    } else {
        attr_markup(a[0]) + attrs_markup(a.drop_first())
    }
}

/// What `Node::outer_html` writes for a node: a tag as `<name attrs>`, then
/// for a non-void tag its content and `</name>`; text and comments as they
/// are.
pub open spec fn outer_markup(m: Markup) -> Seq<char>
    decreases m, 1nat,
{
    match m {
        Markup::Tag(name, attrs, kids) => {
            let open = seq!['<'] + name + attrs_markup(attrs) + seq!['>'];
            if is_void_name(name) {
                open
            } else {
                open + inner_markup(kids) + seq!['<', '/'] + name + seq!['>']
            }
        },
        Markup::Text(s) => s,
        Markup::Comment(s) => s,
    }
}

/// What `HTMLTag::inner_html` writes for a tag's children: each child's
/// markup, in order.
pub open spec fn inner_markup(ms: Seq<Markup>) -> Seq<char>
    decreases ms, 0nat,
{
    if ms.len() == 0 {
        Seq::empty()
    } else {
        outer_markup(ms[0]) + inner_markup(ms.drop_first())
    }
}

/// The tree `tl::parse` builds from a text: its top-level nodes with their
/// children, each tag's attributes taken as `Attributes::iter` gives them,
/// as a multiset, and in order where the tag has at most two attributes
/// other than `id` and `class` (`iter` gives those two in the order of the
/// text, then `id`, then `class`).
pub uninterp spec fn tl_tree(html: Seq<char>) -> Seq<MarkupShape>;

/// Whether a converted node is one that `parse_html` can give for a node of
/// shape `t`: same name, attributes (in the shape's order where it has one,
/// else in some order), text; and for a tag, children that are what
/// `parse_html` gives for the markup of the tag's children in `tl`, written
/// out in an order of their attributes that fits their shapes.
pub open spec fn node_outcome(t: MarkupShape, n: HtmlNode) -> bool
    decreases n, 1nat,
{
    match n {
        HtmlNode::Tag(g) => match t {
            MarkupShape::Tag(name, attrs, order, kids) => {
                &&& g.name@ == name
                &&& attrs_model(g.attributes@).to_multiset() == attrs
                &&& (order matches Some(o) ==> attrs_model(g.attributes@) == o)
                &&& exists|d: Seq<Markup>|
                    #![trigger markups_match(d, kids)]
                    markups_match(d, kids) && parse_outcome(inner_markup(d), g.children@)
            },
            _ => false,
        },
        HtmlNode::Text(s) => t == MarkupShape::Text(s@),
        HtmlNode::Comment(s) => t == MarkupShape::Comment(s@),
    }
}

/// Whether no name, attribute or text of the shape, at any depth, holds `c`.
pub open spec fn shape_free_of(t: MarkupShape, c: char) -> bool
    decreases t,
{
    match t {
        MarkupShape::Tag(name, attrs, _, kids) => {
            &&& !name.contains(c)
            &&& forall|a: AttrModel| #[trigger] attrs.count(a) > 0 ==> attr_free_of(a, c)
            &&& forall|i: int| 0 <= i < kids.len() ==> shape_free_of(#[trigger] kids[i], c)
        },
        MarkupShape::Text(s) => !s.contains(c),
        MarkupShape::Comment(s) => !s.contains(c),
    }
}

/// Whether neither the key nor the value of an attribute holds `c`.
pub open spec fn attr_free_of(a: AttrModel, c: char) -> bool {
    &&& !a.0.contains(c)
    &&& match a.1 {
        Some(v) => !v.contains(c),
        None => true,
    }
}

/// Whether `r` is a result `parse_html` can give for `html`: one node for
/// each top-level node of `tl_tree(html)`, each an outcome for it; and, as
/// `tl` takes every name, attribute and text from the text itself, no
/// character that the text lacks occurs in its tree, but for U+FFFD: `tl`
/// slices bytes, and where a slice cuts a character (as after `<!DOCTYPE é>`,
/// whose name it skips by one byte) the lossy UTF-8 conversion writes
/// U+FFFD.
pub open spec fn parse_outcome(html: Seq<char>, r: Seq<HtmlNode>) -> bool
    decreases r, 0nat,
{
    let t = tl_tree(html);
    &&& forall|c: char, i: int|
        !html.contains(c) && c != '\u{FFFD}' && 0 <= i < t.len() ==> #[trigger] shape_free_of(t[i], c)
    &&& r.len() == t.len()
    &&& forall|i: int| 0 <= i < r.len() ==> node_outcome(t[i], #[trigger] r[i])
}

/// Whether no attribute value of the nodes, at any depth, holds `c`.
pub open spec fn values_free_of(ns: Seq<HtmlNode>, c: char) -> bool
    decreases ns,
{
    forall|i: int|
        0 <= i < ns.len() ==> match #[trigger] ns[i] {
            HtmlNode::Tag(g) => {
                &&& forall|j: int|
                    0 <= j < g.attributes@.len() ==> match #[trigger] g.attributes@[j].1 {
                        Some(v) => !v@.contains(c),
                        None => true,
                    }
                &&& values_free_of(g.children@, c)
            },
            _ => true,
        }
}

// ---------------------------------------------------------------------------
// Which characters a parse can hold

/// The characters `tl` can add: those it writes around markup, and U+FFFD,
/// which its lossy UTF-8 conversion writes for a cut character.
pub open spec fn is_markup_char(c: char) -> bool {
    c == ' ' || c == '=' || c == '"' || c == '<' || c == '>' || c == '/' || c == '\u{FFFD}'
}

proof fn lemma_concat_free(x: Seq<char>, y: Seq<char>, c: char)
    requires
        !x.contains(c),
        !y.contains(c),
    ensures
        !(x + y).contains(c),
{
    if (x + y).contains(c) {
        let k = choose|k: int| 0 <= k < (x + y).len() && (x + y)[k] == c;
        if k < x.len() {
            assert(x[k] == c);
        } else {
            assert(y[k - x.len()] == c);
        }
    }
}

proof fn lemma_markup_chars_free(s: Seq<char>, c: char)
    requires
        !is_markup_char(c),
        forall|i: int| 0 <= i < s.len() ==> is_markup_char(#[trigger] s[i]),
    ensures
        !s.contains(c),
{
    if s.contains(c) {
        let k = choose|k: int| 0 <= k < s.len() && s[k] == c;
        assert(is_markup_char(s[k]));
    }
}

proof fn lemma_attrs_markup_free(a: Seq<AttrModel>, c: char)
    requires
        !is_markup_char(c),
        forall|i: int| 0 <= i < a.len() ==> attr_free_of(#[trigger] a[i], c),
    ensures
        !attrs_markup(a).contains(c),
    decreases a.len(),
{
    if a.len() > 0 {
        assert(attr_free_of(a[0], c));
        lemma_attrs_markup_free(a.drop_first(), c);
        lemma_markup_chars_free(seq![' '], c);
        lemma_markup_chars_free(seq!['=', '"'], c);
        lemma_markup_chars_free(seq!['"'], c);
        lemma_concat_free(seq![' '], a[0].0, c);
        if let Some(v) = a[0].1 {
            lemma_concat_free(seq![' '] + a[0].0, seq!['=', '"'], c);
            lemma_concat_free(seq![' '] + a[0].0 + seq!['=', '"'], v, c);
            lemma_concat_free(seq![' '] + a[0].0 + seq!['=', '"'] + v, seq!['"'], c);
        }
        lemma_concat_free(attr_markup(a[0]), attrs_markup(a.drop_first()), c);
    }
}

proof fn lemma_outer_markup_free(m: Markup, t: MarkupShape, c: char)
    requires
        !is_markup_char(c),
        markup_matches(m, t),
        shape_free_of(t, c),
    ensures
        !outer_markup(m).contains(c),
    decreases m, 1nat,
{
    match m {
        Markup::Tag(name, attrs, kids) => {
            assert forall|i: int| 0 <= i < attrs.len() implies attr_free_of(#[trigger] attrs[i], c) by {
                vstd::seq_lib::to_multiset_contains(attrs, attrs[i]);
                assert(attrs.contains(attrs[i]));
                assert(t->Tag_1 == attrs.to_multiset());
                assert(t->Tag_1.count(attrs[i]) > 0);
            }
            let ks = t->Tag_3;
            assert forall|i: int| 0 <= i < kids.len() implies shape_free_of(#[trigger] ks[i], c) by {
                assert(shape_free_of(ks[i], c));
            }
            lemma_attrs_markup_free(attrs, c);
            lemma_inner_markup_free(kids, ks, c);
            lemma_markup_chars_free(seq!['<'], c);
            lemma_markup_chars_free(seq!['>'], c);
            lemma_markup_chars_free(seq!['<', '/'], c);
            let open = seq!['<'] + name + attrs_markup(attrs) + seq!['>'];
            lemma_concat_free(seq!['<'], name, c);
            lemma_concat_free(seq!['<'] + name, attrs_markup(attrs), c);
            lemma_concat_free(seq!['<'] + name + attrs_markup(attrs), seq!['>'], c);
            lemma_concat_free(open, inner_markup(kids), c);
            lemma_concat_free(open + inner_markup(kids), seq!['<', '/'], c);
            lemma_concat_free(open + inner_markup(kids) + seq!['<', '/'], name, c);
            lemma_concat_free(open + inner_markup(kids) + seq!['<', '/'] + name, seq!['>'], c);
        },
        Markup::Text(_) => {},
        Markup::Comment(_) => {},
    }
}

proof fn lemma_inner_markup_free(ms: Seq<Markup>, ts: Seq<MarkupShape>, c: char)
    requires
        !is_markup_char(c),
        markups_match(ms, ts),
        forall|i: int| 0 <= i < ts.len() ==> shape_free_of(#[trigger] ts[i], c),
    ensures
        !inner_markup(ms).contains(c),
    decreases ms, 0nat,
{
    if ms.len() > 0 {
        assert(markup_matches(ms[0], ts[0]));
        assert(shape_free_of(ts[0], c));
        lemma_outer_markup_free(ms[0], ts[0], c);
        let rm = ms.drop_first();
        let rt = ts.drop_first();
        assert forall|i: int| 0 <= i < rm.len() implies markup_matches(#[trigger] rm[i], rt[i]) by {
            assert(rm[i] == ms[i + 1]);
            assert(rt[i] == ts[i + 1]);
            assert(markup_matches(ms[i + 1], ts[i + 1]));
        }
        assert forall|i: int| 0 <= i < rt.len() implies shape_free_of(#[trigger] rt[i], c) by {
            assert(rt[i] == ts[i + 1]);
        }
        lemma_inner_markup_free(rm, rt, c);
        lemma_concat_free(outer_markup(ms[0]), inner_markup(ms.drop_first()), c);
    }
}

/// The attribute values of a node, at any depth, are free of `c`.
pub open spec fn node_values_free_of(n: HtmlNode, c: char) -> bool {
    match n {
        HtmlNode::Tag(g) => {
            &&& forall|j: int|
                0 <= j < g.attributes@.len() ==> match #[trigger] g.attributes@[j].1 {
                    Some(v) => !v@.contains(c),
                    None => true,
                }
            &&& values_free_of(g.children@, c)
        },
        _ => true,
    }
}

proof fn lemma_node_outcome_free(t: MarkupShape, n: HtmlNode, c: char)
    requires
        node_outcome(t, n),
        shape_free_of(t, c),
        !is_markup_char(c),
    ensures
        node_values_free_of(n, c),
    decreases n, 1nat,
{
    if let HtmlNode::Tag(g) = n {
        if let MarkupShape::Tag(name, attrs, order, kids) = t {
            let am = attrs_model(g.attributes@);
            assert forall|j: int| 0 <= j < g.attributes@.len() implies match #[trigger] g.attributes@[j].1 {
                Some(v) => !v@.contains(c),
                None => true,
            } by {
                vstd::seq_lib::to_multiset_contains(am, am[j]);
                assert(am.contains(am[j]));
                assert(attrs.count(am[j]) > 0);
                assert(attr_free_of(am[j], c));
            }
            let d = choose|d: Seq<Markup>|
                #![trigger markups_match(d, kids)]
                markups_match(d, kids) && parse_outcome(inner_markup(d), g.children@);
            assert forall|i: int| 0 <= i < kids.len() implies shape_free_of(#[trigger] kids[i], c) by {
                assert(shape_free_of(kids[i], c));
            }
            lemma_inner_markup_free(d, kids, c);
            assert(decreases_to!(n => g));
            assert(decreases_to!(g => g.children));
            assert(decreases_to!(g.children => g.children@));
            lemma_outcome_free(inner_markup(d), g.children@, c);
        }
    }
}

/// A character the text lacks, and that `tl` never adds, occurs in no
/// attribute value of any outcome of parsing it.
pub proof fn lemma_outcome_free(html: Seq<char>, r: Seq<HtmlNode>, c: char)
    requires
        parse_outcome(html, r),
        !html.contains(c),
        !is_markup_char(c),
    ensures
        values_free_of(r, c),
    decreases r, 0nat,
{
    let t = tl_tree(html);
    assert forall|i: int| 0 <= i < r.len() implies node_values_free_of(#[trigger] r[i], c) by {
        assert(shape_free_of(t[i], c));
        lemma_node_outcome_free(t[i], r[i], c);
    }
}

/// How many bytes UTF-8 takes for a character.
pub open spec fn char_utf8_len(c: char) -> nat {
    if (c as u32) < 0x80 {
        1
    } else if (c as u32) < 0x800 {
        2
    } else if (c as u32) < 0x10000 {
        3
    } else {
        4
    }
}

/// How many bytes UTF-8 takes for a text.
pub open spec fn utf8_len(s: Seq<char>) -> nat
    decreases s.len(),
{
    if s.len() == 0 {
        0
    } else {
        utf8_len(s.drop_last()) + char_utf8_len(s.last())
    }
}

/// Whether `tl::parse` refuses the text (it refuses texts over `u32::MAX`
/// bytes), or, going at most `fuel` tags deep, the markup of some tag's
/// content, written out in an order of the attributes that fits the parse.
pub open spec fn may_refuse(html: Seq<char>, fuel: nat) -> bool
    decreases fuel,
{
    ||| utf8_len(html) > u32::MAX
    ||| fuel > 0 && exists|i: int, d: Seq<Markup>|
        0 <= i < tl_tree(html).len() && tl_tree(html)[i] is Tag && #[trigger] markups_match(
            d,
            tl_tree(html)[i]->Tag_3,
        ) && may_refuse(inner_markup(d), (fuel - 1) as nat)
}

/// Whether parsing a text, its tags' content parsed again at every depth,
/// can meet a text that `tl::parse` refuses.
pub open spec fn tl_refuses(html: Seq<char>) -> bool {
    exists|fuel: nat| may_refuse(html, fuel)
}

/// Calls `tl::parse` and converts its top-level nodes; a tag's children are
/// what `parse_html` gives for the tag's `inner_html`, as the compiler reads
/// them. `None` where `tl::parse` refuses a text, at the top or for the
/// markup of some tag's content: `InvalidLength`, for texts over `u32::MAX`
/// bytes, is its only error. Claims: a result given is an outcome of
/// `tl_tree(html@)` (`parse_outcome`), which fixes the order of a tag's
/// attributes where it has at most two besides `id` and `class`; `None`
/// comes only where such a refusal can happen (`tl_refuses`), so a text
/// where none can gives a result; and a text over `u32::MAX` bytes gives
/// `None`. For a tag with more attributes, the order, and with it the markup
/// of its parent's children, is left open: `tl` then keeps its attributes
/// in a `HashMap`, whose order changes from run to run.
#[verifier::external_body]
pub(crate) fn parse_html(html: &str) -> (r: Option<Vec<HtmlNode>>)
    ensures
        r matches Some(n) ==> n@.len() == tl_tree(html@).len() && parse_outcome(html@, n@),
        r is None ==> tl_refuses(html@),
        !tl_refuses(html@) ==> r is Some,
        html.spec_bytes().len() > u32::MAX ==> r is None,
{
    let dom = tl::parse(html, Default::default()).ok()?;
    let p = dom.parser();
    dom.children().iter().map(|h| Some(match h.get(p).unwrap() {
        Node::Tag(t) => HtmlNode::Tag(HtmlTag {
            name: t.name().as_utf8_str().into(),
            attributes: t.attributes().iter().map(|(k, v)| (k.into(), v.map(Into::into))).collect(),
            children: parse_html(&t.inner_html(p))?,
        }),
        Node::Raw(b) => HtmlNode::Text(b.as_utf8_str().into()),
        Node::Comment(b) => HtmlNode::Comment(b.as_utf8_str().into()),
    })).collect()
}

} // verus!
