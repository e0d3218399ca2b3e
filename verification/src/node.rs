//! What the serialiser knows of one node of the syntax tree, and the XML
//! attributes that follow from it.

use crate::decimal::{decimal_digits, lemma_decimal_digits_len, push_decimal};
use vstd::prelude::*;
use vstd::string::*;

verus! {

/// Where a node was spelled in the source text.
pub struct SourceLocation {
    /// The path of the file, where it can be resolved.
    pub file: Option<String>,
    pub line: u32,
    pub column: u32,
    pub offset: u32,
}

/// The type of a node: the name of its kind and the way it is displayed.
pub struct TypeInfo {
    pub kind: String,
    pub display_name: String,
}

/// One node of the syntax tree, as plain values. Two nodes are the same node
/// exactly when their `id` is the same.
pub struct AstNode {
    /// The identity of the node.
    pub id: u64,
    /// Whether the node lies in the primary input file.
    pub in_main_file: bool,
    /// The name of the node's kind. It names the node's element.
    pub kind: String,
    /// The unique symbol reference.
    pub usr: Option<String>,
    pub location: Option<SourceLocation>,
    /// The name of the linkage classification.
    pub linkage: Option<String>,
    /// The full name of the module that owns the node.
    pub module: Option<String>,
    pub type_info: Option<TypeInfo>,
    /// The value of an enum constant, as a signed and as an unsigned number.
    pub enum_constant_value: Option<(i64, u64)>,
    /// The documentation comment.
    pub comment: Option<String>,
    pub display_name: Option<String>,
}

/// A name and a value attached to an element.
pub struct XmlAttribute {
    pub name: String,
    pub value: String,
}

impl View for XmlAttribute {
    type V = (Seq<char>, Seq<char>);

    open spec fn view(&self) -> (Seq<char>, Seq<char>) {
        (self.name@, self.value@)
    }
}

/// The attributes of a list, each as name and value.
pub open spec fn attribute_views(list: Seq<XmlAttribute>) -> Seq<(Seq<char>, Seq<char>)> {
    list.map_values(|a: XmlAttribute| a@)
}

/// The text of an optional string: absence is the empty text.
pub open spec fn text_of(text: Option<String>) -> Seq<char> {
    match text {
        Some(t) => t@,
        None => Seq::empty(),
    }
}

/// Whether an attribute has a value to show.
pub open spec fn has_value(attribute: (Seq<char>, Seq<char>)) -> bool {
    attribute.1.len() > 0
}

impl SourceLocation {
    /// The location as `path:line:column:offset`, with an empty path where
    /// the file is not known.
    pub open spec fn spelling(self) -> Seq<char> {
        text_of(self.file) + seq![':'] + decimal_digits(self.line as nat) + seq![':']
            + decimal_digits(self.column as nat) + seq![':'] + decimal_digits(self.offset as nat)
    }

    /// The location as `path:line:column:offset`.
    pub fn to_text(&self) -> (text: String)
        ensures
            text@ == self.spelling(),
    {
        proof {
            reveal_strlit(":");
        }
        let mut text = String::new();
        match &self.file {
            Some(path) => text.append(path.as_str()),
            None => {},
        }
        text.append(":");
        push_decimal(&mut text, self.line as u64);
        text.append(":");
        push_decimal(&mut text, self.column as u64);
        text.append(":");
        push_decimal(&mut text, self.offset as u64);
        assert(text@ =~= self.spelling());
        text
    }
}

impl AstNode {
    /// The text of the `src` attribute: the spelling of the location, or
    /// nothing where the node has none.
    pub open spec fn src_text(self) -> Seq<char> {
        match self.location {
            Some(location) => location.spelling(),
            None => Seq::empty(),
        }
    }

    /// The text of the `type_kind` attribute.
    pub open spec fn type_kind_text(self) -> Seq<char> {
        match self.type_info {
            Some(info) => info.kind@,
            None => Seq::empty(),
        }
    }

    /// The text of the `type_display_name` attribute.
    pub open spec fn type_display_name_text(self) -> Seq<char> {
        match self.type_info {
            Some(info) => info.display_name@,
            None => Seq::empty(),
        }
    }

    /// The text of the `enum_constant_value` attribute: the unsigned value
    /// in decimal.
    pub open spec fn enum_constant_value_text(self) -> Seq<char> {
        match self.enum_constant_value {
            Some(value) => decimal_digits(value.1 as nat),
            None => Seq::empty(),
        }
    }

    /// Every attribute a node can have, in the order in which they are
    /// written, each with the text that the node gives it.
    pub open spec fn candidate_attributes(self) -> Seq<(Seq<char>, Seq<char>)> {
        seq![
            ("usr"@, text_of(self.usr)),
            ("src"@, self.src_text()),
            ("linkage"@, text_of(self.linkage)),
            ("module"@, text_of(self.module)),
            ("type_kind"@, self.type_kind_text()),
            ("type_display_name"@, self.type_display_name_text()),
            ("enum_constant_value"@, self.enum_constant_value_text()),
            ("comment"@, text_of(self.comment)),
            ("display_name"@, text_of(self.display_name)),
        ]
    }

    /// The attributes of the node's element: the candidates whose text is
    /// not empty, in their order.
    pub open spec fn attribute_list(self) -> Seq<(Seq<char>, Seq<char>)> {
        self.candidate_attributes().filter(|a: (Seq<char>, Seq<char>)| has_value(a))
    }

    /// The attributes of the node's element.
    pub fn attributes(&self) -> (list: Vec<XmlAttribute>)
        ensures
            attribute_views(list@) == self.attribute_list(),
    {
        let mut list: Vec<XmlAttribute> = Vec::new();
        assert(attribute_views(list@) =~= Seq::empty());
        push_attribute(&mut list, "usr", text_or_empty(&self.usr));
        let src = match &self.location {
            Some(location) => location.to_text(),
            None => String::new(),
        };
        push_attribute(&mut list, "src", src);
        push_attribute(&mut list, "linkage", text_or_empty(&self.linkage));
        push_attribute(&mut list, "module", text_or_empty(&self.module));
        let (type_kind, type_display_name) = match &self.type_info {
            Some(info) => (info.kind.clone(), info.display_name.clone()),
            None => (String::new(), String::new()),
        };
        push_attribute(&mut list, "type_kind", type_kind);
        push_attribute(&mut list, "type_display_name", type_display_name);
        let enum_constant_value = match &self.enum_constant_value {
            Some(value) => {
                let mut text = String::new();
                push_decimal(&mut text, value.1);
                text
            },
            None => String::new(),
        };
        push_attribute(&mut list, "enum_constant_value", enum_constant_value);
        push_attribute(&mut list, "comment", text_or_empty(&self.comment));
        push_attribute(&mut list, "display_name", text_or_empty(&self.display_name));
        proof {
            lemma_filter_of_nine(self.candidate_attributes());
            assert(attribute_views(list@) =~= self.attribute_list());
        }
        list
    }
}

/// The attribute itself where it has a value, nothing where it has none.
pub open spec fn shown(attribute: (Seq<char>, Seq<char>)) -> Seq<(Seq<char>, Seq<char>)> {
    if has_value(attribute) {
        seq![attribute]
    } else {
        Seq::empty()
    }
}

proof fn lemma_filter_of_nine(c: Seq<(Seq<char>, Seq<char>)>)
    requires
        c.len() == 9,
    ensures
        c.filter(|a: (Seq<char>, Seq<char>)| has_value(a)) == shown(c[0]) + shown(c[1]) + shown(
            c[2],
        ) + shown(c[3]) + shown(c[4]) + shown(c[5]) + shown(c[6]) + shown(c[7]) + shown(c[8]),
{
    let keep = |a: (Seq<char>, Seq<char>)| has_value(a);
    assert forall|k: int| 0 <= k <= 9 implies #[trigger] c.take(k).filter(keep)
        == shown_upto(c, k) by {
        lemma_filter_upto(c, k);
    }
    assert(c.take(9) =~= c);
    reveal_with_fuel(shown_upto, 10);
    assert(shown_upto(c, 0) + shown(c[0]) =~= shown(c[0]));
}

/// The attributes among the first `k` that have a value.
spec fn shown_upto(c: Seq<(Seq<char>, Seq<char>)>, k: int) -> Seq<(Seq<char>, Seq<char>)>
    decreases k,
{
    if k <= 0 {
        Seq::empty()
    } else {
        shown_upto(c, k - 1) + shown(c[k - 1])
    }
}

proof fn lemma_filter_upto(c: Seq<(Seq<char>, Seq<char>)>, k: int)
    requires
        0 <= k <= c.len(),
    ensures
        c.take(k).filter(|a: (Seq<char>, Seq<char>)| has_value(a)) == shown_upto(c, k),
    decreases k,
{
    let keep = |a: (Seq<char>, Seq<char>)| has_value(a);
    reveal(Seq::filter);
    if k > 0 {
        lemma_filter_upto(c, k - 1);
        assert(c.take(k).drop_last() =~= c.take(k - 1));
        assert(c.take(k).last() == c[k - 1]);
        assert(c.take(k).filter(keep) =~= shown_upto(c, k));
    } else {
        assert(c.take(k).filter(keep) =~= shown_upto(c, k));
    }
}

/// No attribute of an element has an empty value, and every attribute of
/// an element is one of the node's candidates.
pub proof fn lemma_attributes_have_values(node: AstNode, i: int)
    requires
        0 <= i < node.attribute_list().len(),
    ensures
        node.attribute_list()[i].1.len() > 0,
        node.candidate_attributes().contains(node.attribute_list()[i]),
{
    let keep = |a: (Seq<char>, Seq<char>)| has_value(a);
    let candidates = node.candidate_attributes();
    candidates.lemma_filter_pred(keep, i);
    assert(candidates.filter(keep).contains(candidates.filter(keep)[i]));
    candidates.lemma_filter_contains_rev(keep, candidates.filter(keep)[i]);
}

/// A candidate is an attribute of the element exactly when its text is not
/// empty.
pub proof fn lemma_attribute_present_iff_has_value(node: AstNode, j: int)
    requires
        0 <= j < node.candidate_attributes().len(),
    ensures
        node.attribute_list().contains(node.candidate_attributes()[j]) <==> has_value(
            node.candidate_attributes()[j],
        ),
{
    let keep = |a: (Seq<char>, Seq<char>)| has_value(a);
    let candidates = node.candidate_attributes();
    if has_value(candidates[j]) {
        candidates.lemma_filter_contains(keep, j);
    }
    if candidates.filter(keep).contains(candidates[j]) {
        let i = choose|i: int|
            0 <= i < candidates.filter(keep).len() && candidates.filter(keep)[i] == candidates[j];
        candidates.lemma_filter_pred(keep, i);
    }
}

/// The texts that the library makes itself are never empty: a node that
/// has a location has a `src` attribute, and a node that has an enum
/// constant value has an `enum_constant_value` attribute.
pub proof fn lemma_made_texts_have_values(node: AstNode)
    ensures
        node.location is Some ==> node.src_text().len() > 0,
        node.enum_constant_value is Some ==> node.enum_constant_value_text().len() > 0,
        node.location is Some ==> node.attribute_list().contains(("src"@, node.src_text())),
        node.enum_constant_value is Some ==> node.attribute_list().contains(
            ("enum_constant_value"@, node.enum_constant_value_text()),
        ),
{
    let candidates = node.candidate_attributes();
    if let Some(value) = node.enum_constant_value {
        lemma_decimal_digits_len(value.1 as nat);
        assert(candidates[6] == ("enum_constant_value"@, node.enum_constant_value_text()));
        lemma_attribute_present_iff_has_value(node, 6);
    }
    if node.location is Some {
        assert(candidates[1] == ("src"@, node.src_text()));
        lemma_attribute_present_iff_has_value(node, 1);
    }
}

fn text_or_empty(text: &Option<String>) -> (copy: String)
    ensures
        copy@ == text_of(*text),
{
    match text {
        Some(t) => t.clone(),
        None => String::new(),
    }
}

fn push_attribute(list: &mut Vec<XmlAttribute>, name: &str, value: String)
    ensures
        attribute_views(final(list)@) == attribute_views(old(list)@) + shown((name@, value@)),
{
    if !value.as_str().is_empty() {
        list.push(XmlAttribute { name: String::from_str(name), value });
    }
    assert(attribute_views(list@) =~= attribute_views(old(list)@) + shown((name@, value@)));
}

} // verus!
