//! The page of the dashboard.

use vstd::prelude::*;
use crate::digits;
use crate::json;
use crate::text;

verus! {

/// A page from its template: the title, the time between two loads in seconds, and the key as a
/// string literal stand in their places.
pub open spec fn filled(
    template: Seq<char>,
    title: Seq<char>,
    refresh: nat,
    key: Seq<char>,
) -> Seq<char> {
    let a = text::replaced(template, "{{TITLE}}"@, title);
    let b = text::replaced(a, "{{REFRESH}}"@, digits::decimal(refresh));
    text::replaced(b, "{{KEY}}"@, json::quoted(key))
}

/// Fills in the template of the page.
pub fn page(template: &str, title: &str, refresh: u64, key: &str) -> (r: String)
    ensures
        r@ == filled(template@, title@, refresh as nat, key@),
{
    proof {
        reveal_strlit("{{TITLE}}");
        reveal_strlit("{{REFRESH}}");
        reveal_strlit("{{KEY}}");
    }
    let a = text::replace(template, "{{TITLE}}", title);
    let seconds = digits::show_unsigned(refresh);
    let b = text::replace(a.as_str(), "{{REFRESH}}", seconds.as_str());
    let literal = json::escape_json(key);
    text::replace(b.as_str(), "{{KEY}}", literal.as_str())
}

} // verus!
