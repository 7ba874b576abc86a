//! The diff engine: which client files the receiver reports as changed.

use crate::manifest::lemma_dirs_deep_view_index;
use crate::manifest::Directory;
use crate::manifest::DirectoryView;
use crate::path::bytes_eq;
use crate::path::FilePath;
use vstd::prelude::*;

verus! {

/// The file name of a path: its final component, if any.
pub open spec fn file_name(p: Seq<Seq<u8>>) -> Option<Seq<u8>> {
    if p.len() == 0 {
        None
    } else {
        Some(p.last())
    }
}

/// The first server descriptor whose file name equals `c`'s, under a linear
/// scan in manifest order.
pub open spec fn first_match(server: Seq<DirectoryView>, c: DirectoryView) -> Option<DirectoryView>
    decreases server.len(),
{
    if server.len() == 0 {
        None
    } else if file_name(server[0].file_path) == file_name(c.file_path) {
        Some(server[0])
    } else {
        first_match(server.skip(1), c)
    }
}

/// The change rule: a client descriptor is changed when no server file shares
/// its name, or when the first name match differs from it in both modified
/// time and size.  A match differing in only one of the two is not changed.
pub open spec fn is_changed(c: DirectoryView, server: Seq<DirectoryView>) -> bool {
    match first_match(server, c) {
        None => true,
        Some(s) => c.modified != s.modified && c.size != s.size,
    }
}

/// The changed subset of the client manifest, in the client's order, with the
/// client's own descriptors.
pub open spec fn changed_files_spec(
    client: Seq<DirectoryView>,
    server: Seq<DirectoryView>,
) -> Seq<DirectoryView> {
    client.filter(|c: DirectoryView| is_changed(c, server))
}

pub proof fn lemma_first_match_none(server: Seq<DirectoryView>, c: DirectoryView)
    requires
        forall|i: int|
            0 <= i < server.len() ==> file_name(#[trigger] server[i].file_path) != file_name(
                c.file_path,
            ),
    ensures
        first_match(server, c) is None,
    decreases server.len(),
{
    if server.len() > 0 {
        lemma_first_match_none(server.skip(1), c);
    }
}

pub proof fn lemma_first_match_at(server: Seq<DirectoryView>, c: DirectoryView, j: int)
    requires
        0 <= j < server.len(),
        file_name(server[j].file_path) == file_name(c.file_path),
        forall|i: int|
            0 <= i < j ==> file_name(#[trigger] server[i].file_path) != file_name(c.file_path),
    ensures
        first_match(server, c) == Some(server[j]),
    decreases j,
{
    if j > 0 {
        lemma_first_match_at(server.skip(1), c, j - 1);
    }
}

/// Whether two paths have the same file name.
pub fn names_match(a: &FilePath, b: &FilePath) -> (r: bool)
    ensures
        r <==> file_name(a@) == file_name(b@),
{
    let alen = a.components.len();
    let blen = b.components.len();
    if alen == 0 && blen == 0 {
        true
    } else if alen == 0 || blen == 0 {
        false
    } else {
        let r = bytes_eq(&a.components[alen - 1], &b.components[blen - 1]);
        proof {
            crate::path::lemma_components_view_index(a.components, alen - 1);
            crate::path::lemma_components_view_index(b.components, blen - 1);
            assert(a@.last() == a.components@[alen - 1]@);
            assert(b@.last() == b.components@[blen - 1]@);
        }
        r
    }
}

/// The index of the first server descriptor sharing `c`'s file name, if any.
fn find_name_match(server: &Vec<Directory>, c: &Directory) -> (r: Option<usize>)
    ensures
        match r {
            Some(j) => j < server@.len() && first_match(server.deep_view(), c@) == Some(
                server@[j as int]@,
            ),
            None => first_match(server.deep_view(), c@) is None,
        },
{
    let mut j: usize = 0;
    loop
        invariant
            j <= server@.len(),
            forall|k: int|
                0 <= k < j ==> file_name(#[trigger] server.deep_view()[k].file_path) != file_name(
                    c@.file_path,
                ),
        ensures
            j <= server@.len(),
            forall|k: int|
                0 <= k < j ==> file_name(#[trigger] server.deep_view()[k].file_path) != file_name(
                    c@.file_path,
                ),
            j < server@.len() ==> file_name(server.deep_view()[j as int].file_path) == file_name(
                c@.file_path,
            ),
        decreases server@.len() - j,
    {
        if j >= server.len() {
            break;
        }
        let m = names_match(&server[j].file_path, &c.file_path);
        proof {
            lemma_dirs_deep_view_index(*server, j as int);
        }
        if m {
            break;
        }
        j = j + 1;
    }
    if j < server.len() {
        proof {
            lemma_first_match_at(server.deep_view(), c@, j as int);
            lemma_dirs_deep_view_index(*server, j as int);
        }
        Some(j)
    } else {
        proof {
            lemma_first_match_none(server.deep_view(), c@);
        }
        None
    }
}

/// Computes the changed subset of the client manifest against the server's
/// own manifest: the descriptors the sender must push (see
/// [`changed_files_spec`] and [`is_changed`]).
pub fn find_changed_files(client_dir: &Vec<Directory>, server_dir: &Vec<Directory>) -> (r: Vec<
    Directory,
>)
    ensures
        r.deep_view() == changed_files_spec(client_dir.deep_view(), server_dir.deep_view()),
{
    let ghost cviews = client_dir.deep_view();
    let ghost sviews = server_dir.deep_view();
    let ghost pred = |c: DirectoryView| is_changed(c, sviews);
    let mut changed: Vec<Directory> = Vec::new();
    let mut i: usize = 0;
    proof {
        assert(cviews.take(0).filter(pred) =~= Seq::<DirectoryView>::empty());
        assert(changed.deep_view() =~= cviews.take(0).filter(pred));
    }
    while i < client_dir.len()
        invariant
            i <= client_dir.len(),
            client_dir@.len() == cviews.len(),
            cviews == client_dir.deep_view(),
            sviews == server_dir.deep_view(),
            pred == (|c: DirectoryView| is_changed(c, sviews)),
            changed.deep_view() == cviews.take(i as int).filter(pred),
        decreases client_dir.len() - i,
    {
        let c = &client_dir[i];
        proof {
            lemma_dirs_deep_view_index(*client_dir, i as int);
        }
        let is_new = match find_name_match(server_dir, c) {
            Some(j) => {
                let s = &server_dir[j];
                proof {
                    lemma_dirs_deep_view_index(*server_dir, j as int);
                }
                c.modified != s.modified && c.size != s.size
            },
            None => true,
        };
        proof {
            assert(is_new == is_changed(c@, sviews));
        }
        let ghost old_changed = changed.deep_view();
        if is_new {
            let copy = c.clone();
            changed.push(copy);
            proof {
                assert(changed.deep_view() =~= old_changed.push(c@));
            }
        }
        proof {
            let t = cviews.take(i + 1);
            assert(t.drop_last() =~= cviews.take(i as int));
            assert(t.last() == c@);
            reveal_with_fuel(Seq::filter, 2);
            assert(t.filter(pred) == cviews.take(i as int).filter(pred) + (if pred(c@) {
                seq![c@]
            } else {
                Seq::<DirectoryView>::empty()
            }));
            if is_new {
                assert(changed.deep_view() =~= t.filter(pred));
            } else {
                assert(changed.deep_view() =~= t.filter(pred));
            }
        }
        i = i + 1;
    }
    proof {
        assert(cviews.take(cviews.len() as int) =~= cviews);
    }
    changed
}

/// Law of the change rule, matched case: if `s` is the first server
/// descriptor sharing client descriptor `c`'s file name, then `c` stands in
/// the changed output exactly when both its size and its modified time
/// differ from `s`'s.
pub proof fn lemma_changed_rule_matched(
    client: Seq<DirectoryView>,
    server: Seq<DirectoryView>,
    c: DirectoryView,
    s: DirectoryView,
)
    requires
        client.contains(c),
        first_match(server, c) == Some(s),
    ensures
        changed_files_spec(client, server).contains(c) <==> (c.size != s.size && c.modified
            != s.modified),
{
    let pred = |x: DirectoryView| is_changed(x, server);
    client.filter_lemma(pred);
    if c.size != s.size && c.modified != s.modified {
        let i = choose|i: int| 0 <= i < client.len() && client[i] == c;
        assert(pred(client[i]));
        assert(client.filter(pred).contains(client[i]));
    }
    if changed_files_spec(client, server).contains(c) {
        let f = client.filter(pred);
        let i = choose|i: int| 0 <= i < f.len() && f[i] == c;
        assert(pred(f[i]));
    }
}

/// Law of the change rule, unmatched case: a client descriptor whose file
/// name no server descriptor shares always stands in the changed output.
pub proof fn lemma_changed_rule_no_match(
    client: Seq<DirectoryView>,
    server: Seq<DirectoryView>,
    c: DirectoryView,
)
    requires
        client.contains(c),
        forall|i: int|
            0 <= i < server.len() ==> file_name(#[trigger] server[i].file_path) != file_name(
                c.file_path,
            ),
    ensures
        changed_files_spec(client, server).contains(c),
{
    lemma_first_match_none(server, c);
    let pred = |x: DirectoryView| is_changed(x, server);
    client.filter_lemma(pred);
    let i = choose|i: int| 0 <= i < client.len() && client[i] == c;
    assert(pred(client[i]));
    assert(client.filter(pred).contains(client[i]));
}

} // verus!
