//! Resolving the workspace root.
//!
//! The workspace root is the folder named `nodian` under the user's home
//! directory; when no home directory can be determined, the filesystem root
//! stands in (a documented degraded default, not an error). Resolving the
//! root inside a workspace tree also creates the folder, with any missing
//! ancestors, when it is absent.

use vstd::prelude::*;

use crate::errors::WsError;
use crate::paths::{can_parse, parse_path, path_clone, path_push, rendered, valid_path, valid_seg};
use crate::tree::{can_create_folder, create_folder_map, Workspace};

verus! {

/// The name of the workspace folder.
pub open spec fn root_seg() -> Seq<char> {
    "nodian"@
}

/// Relies on dirs::home_dir: the user's home directory as the operating
/// system reports it, rendered as a string. The value depends on the
/// environment, so nothing is promised of it; callers handle every outcome.
#[verifier::external_body]
fn os_home_dir() -> (r: Option<String>) {
    dirs::home_dir().and_then(|p| p.to_str().map(|s| s.to_string()))
}

/// The workspace root path derived from a home directory string: the parsed
/// home directory — or the filesystem root, when there is no home directory
/// or its rendering is not an absolute path — with the workspace folder name
/// appended.
pub fn root_path_of(home: Option<&str>) -> (r: Vec<String>)
    ensures
        valid_path(r.deep_view()),
        r.deep_view().len() >= 1,
        r.deep_view().last() == root_seg(),
        (match home {
            Some(h) => can_parse(h@) ==> rendered(r.deep_view().drop_last()) == h@,
            None => r.deep_view().len() == 1,
        }),
        (match home {
            Some(h) => !can_parse(h@) ==> r.deep_view().len() == 1,
            None => true,
        }),
{
    let mut base: Vec<String> = match home {
        Some(h) => match parse_path(h) {
            Some(p) => p,
            None => Vec::new(),
        },
        None => Vec::new(),
    };
    let seg = new_root_seg();
    let ghost b = base.deep_view();
    path_push(&mut base, &seg);
    proof {
        assert(base.deep_view().drop_last() =~= b);
        assert(base.deep_view().last() == root_seg());
        assert forall|i: int| 0 <= i < base.deep_view().len() implies valid_seg(
            #[trigger] base.deep_view()[i],
        ) by {
            if i < b.len() {
                assert(base.deep_view()[i] == b[i]);
            }
        }
    }
    base
}

/// The folder name `nodian` as an owned segment.
fn new_root_seg() -> (r: String)
    ensures
        r@ == root_seg(),
        valid_seg(r@),
{
    let r = String::from_str("nodian");
    proof {
        reveal_strlit("nodian");
        assert(valid_seg(r@));
    }
    r
}

/// The workspace root path as derived from the operating system's notion of
/// the home directory. Whatever the environment holds, the result is a
/// well-formed path ending in the workspace folder name.
pub fn os_root_path() -> (r: Vec<String>)
    ensures
        valid_path(r.deep_view()),
        r.deep_view().len() >= 1,
        r.deep_view().last() == root_seg(),
{
    let h = os_home_dir();
    match &h {
        Some(s) => root_path_of(Some(s.as_str())),
        None => root_path_of(None),
    }
}

/// Resolve the workspace root inside a workspace tree: the folder named
/// `nodian` under the given home path (the filesystem root when there is
/// none), created together with any missing ancestors when absent. Succeeds
/// exactly when the folder can be created, returning its path; on failure the
/// tree is unchanged.
pub fn resolve_root(ws: &mut Workspace, home: Option<&Vec<String>>) -> (r: Result<
    Vec<String>,
    WsError,
>)
    requires
        old(ws).inv(),
    ensures
        final(ws).inv(),
        r is Ok <==> can_create_folder(
            old(ws)@,
            (match home {
                Some(h) => h.deep_view(),
                None => Seq::empty(),
            }).push(root_seg()),
        ),
        r matches Ok(p) ==> {
            let rootp = (match home {
                Some(h) => h.deep_view(),
                None => Seq::<Seq<char>>::empty(),
            }).push(root_seg());
            p.deep_view() == rootp && final(ws)@ == create_folder_map(old(ws)@, rootp)
        },
        r is Err ==> final(ws)@ == old(ws)@ && r->Err_0 is IoError,
{
    let mut root: Vec<String> = match home {
        Some(h) => path_clone(h),
        None => Vec::new(),
    };
    proof {
        assert(root.deep_view() =~= (match home {
            Some(h) => h.deep_view(),
            None => Seq::<Seq<char>>::empty(),
        }));
    }
    let seg = new_root_seg();
    path_push(&mut root, &seg);
    match ws.create_folder(&root) {
        Ok(()) => Ok(root),
        Err(e) => Err(e),
    }
}

} // verus!
