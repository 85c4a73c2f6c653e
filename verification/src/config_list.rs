//! The keyword table of the template language used to list configuration
//! variables.
//!
//! A listed configuration variable is rendered through a small template
//! language with three keywords: `name` (the variable's dotted name),
//! `value` (its value serialised as text) and `overridden` (whether the
//! value is shadowed by a higher layer). The table and the projection each
//! keyword performs on a listed variable are decided here; parsing the
//! template text and driving the rendering belong to the surrounding tool.

use vstd::prelude::*;

verus! {

/// One configuration variable as the listing shows it: its dotted name, its
/// value serialised as text, and whether an upper layer overrides it.
#[derive(Debug, Clone)]
pub struct AnnotatedValue {
    pub name: Vec<u8>,
    pub value_text: Vec<u8>,
    pub is_overridden: bool,
}

/// What a keyword of the listing language evaluates to.
#[derive(Debug, Clone)]
pub enum ConfigTemplateProperty {
    Text(Vec<u8>),
    Boolean(bool),
}

/// The listing language: its keywords, in the order they are registered.
#[derive(Debug, Clone)]
pub struct ConfigTemplateLanguage {
    pub keywords: Vec<Vec<u8>>,
}

/// The keyword that renders a variable's name.
pub open spec fn kw_name() -> Seq<u8> {
    seq![110u8, 97u8, 109u8, 101u8]
}

/// The keyword that renders a variable's serialised value.
pub open spec fn kw_value() -> Seq<u8> {
    seq![118u8, 97u8, 108u8, 117u8, 101u8]
}

/// The keyword that renders whether a variable is overridden.
pub open spec fn kw_overridden() -> Seq<u8> {
    seq![111u8, 118u8, 101u8, 114u8, 114u8, 105u8, 100u8, 100u8, 101u8, 110u8]
}

fn kw_name_vec() -> (r: Vec<u8>)
    ensures
        r@ == kw_name(),
{
    let mut r: Vec<u8> = Vec::new();
    r.push(110u8);
    r.push(97u8);
    r.push(109u8);
    r.push(101u8);
    proof {
        assert(r@ =~= kw_name());
    }
    r
}

fn kw_value_vec() -> (r: Vec<u8>)
    ensures
        r@ == kw_value(),
{
    let mut r: Vec<u8> = Vec::new();
    r.push(118u8);
    r.push(97u8);
    r.push(108u8);
    r.push(117u8);
    r.push(101u8);
    proof {
        assert(r@ =~= kw_value());
    }
    r
}

fn kw_overridden_vec() -> (r: Vec<u8>)
    ensures
        r@ == kw_overridden(),
{
    let mut r: Vec<u8> = Vec::new();
    r.push(111u8);
    r.push(118u8);
    r.push(101u8);
    r.push(114u8);
    r.push(114u8);
    r.push(105u8);
    r.push(100u8);
    r.push(100u8);
    r.push(101u8);
    r.push(110u8);
    proof {
        assert(r@ =~= kw_overridden());
    }
    r
}

/// The language for listing configuration variables: exactly the keywords
/// `name`, `value` and `overridden`, in that order.
pub fn config_template_language() -> (lang: ConfigTemplateLanguage)
    ensures
        lang.keywords@.len() == 3,
        lang.keywords@[0]@ == kw_name(),
        lang.keywords@[1]@ == kw_value(),
        lang.keywords@[2]@ == kw_overridden(),
{
    let mut keywords: Vec<Vec<u8>> = Vec::new();
    keywords.push(kw_name_vec());
    keywords.push(kw_value_vec());
    keywords.push(kw_overridden_vec());
    ConfigTemplateLanguage { keywords }
}

impl ConfigTemplateLanguage {
    /// Evaluates one keyword of the language on a listed variable: `name`
    /// and `value` yield the corresponding text, `overridden` the flag, and
    /// any other word is not a keyword of this language.
    pub fn evaluate_keyword(&self, keyword: &Vec<u8>, value: &AnnotatedValue) -> (r: Option<
        ConfigTemplateProperty,
    >)
        ensures
            keyword@ == kw_name() ==> (r matches Some(ConfigTemplateProperty::Text(t)) && t@
                == value.name@),
            keyword@ == kw_value() ==> (r matches Some(ConfigTemplateProperty::Text(t)) && t@
                == value.value_text@),
            keyword@ == kw_overridden() ==> (r matches Some(
                ConfigTemplateProperty::Boolean(b),
            ) && b == value.is_overridden),
            keyword@ != kw_name() && keyword@ != kw_value() && keyword@ != kw_overridden()
                ==> r is None,
    {
        if crate::lines::bytes_eq(keyword, &kw_name_vec()) {
            Some(ConfigTemplateProperty::Text(crate::lines::clone_bytes(&value.name)))
        } else if crate::lines::bytes_eq(keyword, &kw_value_vec()) {
            Some(ConfigTemplateProperty::Text(crate::lines::clone_bytes(&value.value_text)))
        } else if crate::lines::bytes_eq(keyword, &kw_overridden_vec()) {
            Some(ConfigTemplateProperty::Boolean(value.is_overridden))
        } else {
            None
        }
    }
}

} // verus!
