//! Laying the test harness's screens out on one HTML page, side by side on a dark background.

use vstd::prelude::*;
use vstd::string::StringExecFns;

verus! {

/// The document's start: a dark page with the screens' own styles.
pub const HTML_HEAD: &'static str = "<!doctype html><meta charset=\"utf-8\"><title>Quvyta review</title><style>body{background:#050507;margin:24px;font-family:'JetBrainsMono Nerd Font Mono','JetBrains Mono',monospace}figure{margin:0 0 28px}figcaption{color:#8a8f99;font:12px sans-serif;margin-bottom:6px}.screen{display:inline-block;font-size:14px;line-height:19px;white-space:pre}.row{display:flex;height:19px}.row span{display:inline-block;overflow:hidden}</style>";

/// The texts of `fragments`, one after another.
pub open spec fn joined(fragments: Seq<String>) -> Seq<char>
    decreases fragments.len(),
{
    if fragments.len() == 0 {
        Seq::empty()
    } else {
        joined(fragments.drop_last()) + fragments.last()@
    }
}

/// Wraps screen fragments in an HTML document that lays them out on a dark page: the head, then
/// every fragment in order.
pub fn html_page(fragments: &[String]) -> (page: String)
    ensures
        page@ == HTML_HEAD@ + joined(fragments@),
{
    let mut page = HTML_HEAD.to_owned();
    let mut i: usize = 0;
    while i < fragments.len()
        invariant
            i <= fragments@.len(),
            page@ == HTML_HEAD@ + joined(fragments@.take(i as int)),
        decreases fragments@.len() - i,
    {
        page.append(fragments[i].as_str());
        proof {
            assert(fragments@.take(i + 1).drop_last() =~= fragments@.take(i as int));
            assert(HTML_HEAD@ + joined(fragments@.take(i as int)) + fragments@[i as int]@
                =~= HTML_HEAD@ + joined(fragments@.take(i + 1)));
        }
        i = i + 1;
    }
    assert(fragments@.take(i as int) =~= fragments@);
    page
}

} // verus!
