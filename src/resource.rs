//! Where a downloaded resource is stored.

use vstd::prelude::*;
use crate::link::Link;

verus! {

/// The directory that downloaded resources are written to.
pub const RESOURCE_DIR: &'static str = "prey/res";

/// The file a resource is written to: the directory, a `/`, and the last
/// segment of the URL's path. Two URLs that end in the same segment share a
/// file. A URL without path segments has no file, and its download is
/// skipped.
pub fn resource_path(dir: &str, url: &Link) -> (r: Option<String>)
    ensures
        match url@.last_segment {
            Some(seg) => r is Some && r->Some_0@ == dir@ + seq!['/'] + seg,
            None => r is None,
        },
{
    match &url.last_segment {
        Some(seg) => {
            let mut p = String::from_str(dir);
            p.append("/");
            p.append(seg.as_str());
            proof {
                reveal_strlit("/");
            }
            assert("/"@ =~= seq!['/']);
            Some(p)
        },
        None => None,
    }
}

} // verus!
