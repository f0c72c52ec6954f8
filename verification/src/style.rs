//! The `style` attribute from CSS declarations, in their shortest form.

use crate::attr::Attr;
use crate::attr::kinds::{style as style_attr, Style};
use lightningcss::declaration::DeclarationBlock;
use lightningcss::printer::PrinterOptions;
use lightningcss::stylesheet::ParserOptions;
use lightningcss::traits::ToCss;
use vstd::prelude::*;

verus! {

/// What the declarations `input` are minified to, or `None` where `input`
/// is no list of CSS declarations.
pub uninterp spec fn minified(input: Seq<char>) -> Option<Seq<char>>;

/// `DeclarationBlock::parse_string` of lightningcss with the default
/// options, followed by `ToCss::to_css_string` with `minify` switched on
/// and every other option at its default: parses `input` as a list of CSS
/// declarations and prints them without white space. Gives `None` where the
/// one or the other fails. The result depends on `input` alone, and is
/// called [`minified`].
#[verifier::external_body]
fn minify(input: &str) -> (css: Option<String>)
    ensures
        match css {
            Some(text) => minified(input@) == Some(text@),
            None => minified(input@) is None,
        },
{
    let block = DeclarationBlock::parse_string(input, ParserOptions::default()).ok()?;
    block.to_css_string(PrinterOptions { minify: true, ..PrinterOptions::default() }).ok()
}

/// The declarations were no CSS.
#[derive(Clone, Copy, PartialEq, Eq, Structural, Debug)]
pub struct StyleError;

/// The `style` attribute with the minified declarations `css`, or the error
/// where there are none.
pub fn style_of(css: Option<String>) -> (result: Result<Attr<Style, String>, StyleError>)
    ensures
        match (css, result) {
            (Some(text), Ok(view)) => *view.value() == text,
            (None, Err(_)) => true,
            _ => false,
        },
{
    match css {
        Some(text) => Ok(style_attr(text)),
        None => Err(StyleError),
    }
}

/// The `style` attribute with the declarations `input`, minified. Fails
/// where `input` is no list of CSS declarations.
pub fn style(input: &str) -> (result: Result<Attr<Style, String>, StyleError>)
    ensures
        match result {
            Ok(view) => minified(input@) == Some(view.value()@),
            Err(_) => minified(input@) is None,
        },
{
    style_of(minify(input))
}

} // verus!
