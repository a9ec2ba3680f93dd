use vstd::prelude::*;

verus! {

/// Relies on tera::Tera::one_off, with autoescaping off: it parses `template`
/// and renders it against the one-variable context `{key: value}`, and a
/// template that does not render comes back as `None`.  Nothing is promised
/// of the rendered text or of which outcome comes back: a template may walk
/// an inline map literal, whose order tera takes from a hash map that every
/// process seeds anew, so two calls on the same arguments may disagree.
/// Callers treat the result as an opaque value.
#[verifier::external_body]
pub(crate) fn render_one(template: &str, key: &str, value: &str) -> Option<String> {
    let mut context = tera::Context::new();
    context.insert(key.to_string(), value);
    tera::Tera::one_off(template, &context, false).ok()
}

} // verus!
