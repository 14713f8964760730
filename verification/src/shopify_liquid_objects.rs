//! The fixed allow-list of Shopify Liquid object-type names.
//!
//! A `@param` type that is not one of the four built-ins must name one of
//! these platform objects; anything else is a parse error.  Updating this
//! list is a configuration change, not a parser change.

use vstd::prelude::*;

use crate::text::str_eq_str;

verus! {

/// The recognized platform object-type names.
pub open spec fn is_allowed_object(name: Seq<char>) -> bool {
    ||| name == "address"@
    ||| name == "article"@
    ||| name == "block"@
    ||| name == "blog"@
    ||| name == "cart"@
    ||| name == "collection"@
    ||| name == "country"@
    ||| name == "currency"@
    ||| name == "customer"@
    ||| name == "font"@
    ||| name == "form"@
    ||| name == "image"@
    ||| name == "line_item"@
    ||| name == "link"@
    ||| name == "linklist"@
    ||| name == "localization"@
    ||| name == "market"@
    ||| name == "media"@
    ||| name == "metafield"@
    ||| name == "metaobject"@
    ||| name == "model"@
    ||| name == "order"@
    ||| name == "page"@
    ||| name == "paginate"@
    ||| name == "predictive_search"@
    ||| name == "product"@
    ||| name == "recommendations"@
    ||| name == "request"@
    ||| name == "routes"@
    ||| name == "search"@
    ||| name == "section"@
    ||| name == "selling_plan"@
    ||| name == "settings"@
    ||| name == "shop"@
    ||| name == "template"@
    ||| name == "theme"@
    ||| name == "variant"@
    ||| name == "video"@
}

/// Membership in the allow-list, decided name by name.
pub fn allowed_object(name: &str) -> (r: bool)
    ensures
        r == is_allowed_object(name@),
{
    str_eq_str(name, "address") || str_eq_str(name, "article") || str_eq_str(name, "block")
        || str_eq_str(name, "blog") || str_eq_str(name, "cart") || str_eq_str(name, "collection")
        || str_eq_str(name, "country") || str_eq_str(name, "currency") || str_eq_str(
        name,
        "customer",
    ) || str_eq_str(name, "font") || str_eq_str(name, "form") || str_eq_str(name, "image")
        || str_eq_str(name, "line_item") || str_eq_str(name, "link") || str_eq_str(
        name,
        "linklist",
    ) || str_eq_str(name, "localization") || str_eq_str(name, "market") || str_eq_str(
        name,
        "media",
    ) || str_eq_str(name, "metafield") || str_eq_str(name, "metaobject") || str_eq_str(
        name,
        "model",
    ) || str_eq_str(name, "order") || str_eq_str(name, "page") || str_eq_str(name, "paginate")
        || str_eq_str(name, "predictive_search") || str_eq_str(name, "product") || str_eq_str(
        name,
        "recommendations",
    ) || str_eq_str(name, "request") || str_eq_str(name, "routes") || str_eq_str(name, "search")
        || str_eq_str(name, "section") || str_eq_str(name, "selling_plan") || str_eq_str(
        name,
        "settings",
    ) || str_eq_str(name, "shop") || str_eq_str(name, "template") || str_eq_str(name, "theme")
        || str_eq_str(name, "variant") || str_eq_str(name, "video")
}

} // verus!
