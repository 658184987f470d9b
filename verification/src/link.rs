//! When a link is handled in the page instead of by the browser.
use vstd::prelude::*;
use crate::text::str_eq;

verus! {

/// A link is taken over by the router unless its target is an absolute URL, it is a download,
/// or it opens in a new browsing context (`_blank`).
pub open spec fn link_intercepted(absolute: bool, has_download: bool, target: Option<Seq<char>>) -> bool {
    !(absolute || has_download || (target matches Some(t) && t == "_blank"@))
}

/// The router takes a link over exactly when it is relative, is no download, and does not
/// open in `_blank`: every other target, `_self`, `_top`, `_parent` or a named frame, is
/// taken over, and so is a link without a target.
pub proof fn law_intercepted_links(absolute: bool, has_download: bool, target: Option<Seq<char>>)
    ensures
        absolute ==> !link_intercepted(absolute, has_download, target),
        has_download ==> !link_intercepted(absolute, has_download, target),
        target == Some("_blank"@) ==> !link_intercepted(absolute, has_download, target),
        !absolute && !has_download && target is None ==> link_intercepted(
            absolute,
            has_download,
            target,
        ),
        forall|t: Seq<char>|
            !absolute && !has_download && target == Some(t) && t != "_blank"@ ==> #[trigger] link_intercepted(
                absolute,
                has_download,
                Some(t),
            ),
{
}

/// Whether a link with these properties is taken over by the router.
pub fn intercepts_link(absolute: bool, has_download: bool, target: Option<&str>) -> (r: bool)
    ensures
        r == link_intercepted(
            absolute,
            has_download,
            match target {
                Some(t) => Some(t@),
                None => None,
            },
        ),
{
    if absolute || has_download {
        return false;
    }
    match target {
        Some(t) => !str_eq(t, "_blank"),
        None => true,
    }
}

/// Whether a click on a link that the router took over navigates in the page: a click with
/// Ctrl or Meta held is left to the browser.
pub fn click_navigates(ctrl_key: bool, meta_key: bool) -> (r: bool)
    ensures
        r == !(ctrl_key || meta_key),
{
    !(ctrl_key || meta_key)
}

} // verus!
