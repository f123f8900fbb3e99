//! The collection store: folders and worlds side by side, every mutation
//! keeping the two-way relation between them consistent.
//!
//! A folder's `world_ids` is the authoritative live membership; a world's
//! `folders` list is its "last known folders" ledger, joined by folder
//! name. For a visible world the two agree exactly; hiding a world empties
//! the live side but keeps the ledger, which unhiding replays.
//!
//! Callers guard the two collections with their own locks (folders before
//! worlds) and persist through the durable layer after each mutation.

use vstd::prelude::*;

use crate::entities::FolderModel;
use crate::entities::FolderV;
use crate::entities::WorldModel;
use crate::entities::WorldUserV;
use crate::entities::WorldV;
use crate::errors::AppError;
use crate::errors::EntityError;

verus! {

/// The spec-level image of a folder list.
pub open spec fn fviews(fs: Seq<FolderModel>) -> Seq<FolderV> {
    fs.map_values(|f: FolderModel| f@)
}

/// The spec-level image of a world list.
pub open spec fn wviews(ws: Seq<WorldModel>) -> Seq<WorldV> {
    ws.map_values(|w: WorldModel| w@)
}

/// Whether some folder bears the name.
pub open spec fn has_folder(fs: Seq<FolderV>, name: Seq<char>) -> bool {
    exists|i: int| 0 <= i < fs.len() && (#[trigger] fs[i]).folder_name == name
}

/// Whether some world bears the identifier.
pub open spec fn has_world(ws: Seq<WorldV>, id: Seq<char>) -> bool {
    exists|i: int| 0 <= i < ws.len() && (#[trigger] ws[i]).api_data.world_id == id
}

/// No two folders share a name.
pub open spec fn folder_names_unique(fs: Seq<FolderV>) -> bool {
    forall|i: int, j: int|
        0 <= i < j < fs.len() ==> (#[trigger] fs[i]).folder_name != (
        #[trigger] fs[j]).folder_name
}

/// No two worlds share an identifier.
pub open spec fn world_ids_unique(ws: Seq<WorldV>) -> bool {
    forall|i: int, j: int|
        0 <= i < j < ws.len() ==> (#[trigger] ws[i]).api_data.world_id != (
        #[trigger] ws[j]).api_data.world_id
}

/// No entry repeats.
pub open spec fn no_dup(s: Seq<Seq<char>>) -> bool {
    forall|i: int, j: int| 0 <= i < j < s.len() ==> s[i] != s[j]
}

/// The store's consistency invariant. It holds after every operation:
///
/// 1. folder names and world identifiers are unique, and no membership
///    list or ledger repeats an entry;
/// 2. every member identifier names an existing world;
/// 3. a hidden world sits in no folder's member list;
/// 4. for a visible world, membership and ledger agree exactly: a folder
///    lists the world if and only if the world's ledger names the folder;
/// 5. every ledger name of a visible world names an existing folder (only
///    hidden worlds may remember folders that are gone).
pub open spec fn consistent(fs: Seq<FolderV>, ws: Seq<WorldV>) -> bool {
    &&& folder_names_unique(fs)
    &&& world_ids_unique(ws)
    &&& (forall|i: int| 0 <= i < fs.len() ==> no_dup((#[trigger] fs[i]).world_ids))
    &&& (forall|j: int| 0 <= j < ws.len() ==> no_dup((#[trigger] ws[j]).user_data.folders))
    &&& (forall|i: int, k: int|
        0 <= i < fs.len() && 0 <= k < (#[trigger] fs[i]).world_ids.len() ==> has_world(
            ws,
            #[trigger] fs[i].world_ids[k],
        ))
    &&& (forall|i: int, j: int|
        0 <= i < fs.len() && 0 <= j < ws.len() && (#[trigger] ws[j]).user_data.hidden ==> !(
        #[trigger] fs[i]).world_ids.contains(ws[j].api_data.world_id))
    &&& (forall|i: int, j: int|
        0 <= i < fs.len() && 0 <= j < ws.len() && !(#[trigger] ws[j]).user_data.hidden ==> ((
        #[trigger] fs[i]).world_ids.contains(ws[j].api_data.world_id)
            <==> ws[j].user_data.folders.contains(fs[i].folder_name)))
    &&& (forall|j: int, n: int|
        0 <= j < ws.len() && !(#[trigger] ws[j]).user_data.hidden && 0 <= n < ws[j].user_data.folders.len()
            ==> has_folder(fs, #[trigger] ws[j].user_data.folders[n]))
}

/// The position of the folder bearing a name, if any.
pub fn find_folder(folders: &Vec<FolderModel>, name: &String) -> (r: Option<usize>)
    ensures
        r matches Some(i) ==> i < folders@.len() && folders@[i as int].folder_name@ == name@,
        r is None ==> !has_folder(fviews(folders@), name@),
{
    let mut i: usize = 0;
    while i < folders.len()
        invariant
            0 <= i <= folders@.len(),
            forall|k: int| 0 <= k < i ==> (#[trigger] folders@[k]).folder_name@ != name@,
        decreases folders@.len() - i,
    {
        if folders[i].folder_name == *name {
            return Some(i);
        }
        i = i + 1;
    }
    proof {
        assert forall|k: int| 0 <= k < fviews(folders@).len() implies (#[trigger] fviews(
            folders@,
        )[k]).folder_name != name@ by {
            assert(fviews(folders@)[k] == folders@[k]@);
        }
    }
    None
}

/// The position of the world bearing an identifier, if any.
pub fn find_world(worlds: &Vec<WorldModel>, id: &String) -> (r: Option<usize>)
    ensures
        r matches Some(i) ==> i < worlds@.len() && worlds@[i as int].api_data.world_id@ == id@,
        r is None ==> !has_world(wviews(worlds@), id@),
{
    let mut i: usize = 0;
    while i < worlds.len()
        invariant
            0 <= i <= worlds@.len(),
            forall|k: int| 0 <= k < i ==> (#[trigger] worlds@[k]).api_data.world_id@ != id@,
        decreases worlds@.len() - i,
    {
        if worlds[i].api_data.world_id == *id {
            return Some(i);
        }
        i = i + 1;
    }
    proof {
        assert forall|k: int| 0 <= k < wviews(worlds@).len() implies (#[trigger] wviews(
            worlds@,
        )[k]).api_data.world_id != id@ by {
            assert(wviews(worlds@)[k] == worlds@[k]@);
        }
    }
    None
}

/// A folder's view after a new member identifier is appended.
pub open spec fn folder_with_id(f: FolderV, id: Seq<char>) -> FolderV {
    FolderV { world_ids: f.world_ids.push(id), ..f }
}

/// A world's view after a folder name is appended to its ledger.
pub open spec fn world_with_ledger_name(w: WorldV, name: Seq<char>) -> WorldV {
    WorldV {
        user_data: WorldUserV { folders: w.user_data.folders.push(name), ..w.user_data },
        ..w
    }
}

/// What [`FolderManager::add_world_to_folder`] does, stated over the
/// views. `fi` and `wi` are the positions of the folder and the world.
pub open spec fn add_world_post(
    fs0: Seq<FolderV>,
    ws0: Seq<WorldV>,
    fs1: Seq<FolderV>,
    ws1: Seq<WorldV>,
    fi: int,
    wi: int,
) -> bool {
    if ws0[wi].user_data.folders.contains(fs0[fi].folder_name) {
        fs1 == fs0 && ws1 == ws0
    } else {
        fs1 == fs0.update(fi, folder_with_id(fs0[fi], ws0[wi].api_data.world_id)) && ws1
            == ws0.update(wi, world_with_ledger_name(ws0[wi], fs0[fi].folder_name))
    }
}

/// Appending a visible world to a folder it is not yet in (on both sides
/// at once) keeps the store consistent.
proof fn lemma_add_pair_consistent(fs0: Seq<FolderV>, ws0: Seq<WorldV>, fi: int, wi: int)
    requires
        consistent(fs0, ws0),
        0 <= fi < fs0.len(),
        0 <= wi < ws0.len(),
        !ws0[wi].user_data.hidden,
        !ws0[wi].user_data.folders.contains(fs0[fi].folder_name),
    ensures
        consistent(
            fs0.update(fi, folder_with_id(fs0[fi], ws0[wi].api_data.world_id)),
            ws0.update(wi, world_with_ledger_name(ws0[wi], fs0[fi].folder_name)),
        ),
{
    let name = fs0[fi].folder_name;
    let id = ws0[wi].api_data.world_id;
    let fs1 = fs0.update(fi, folder_with_id(fs0[fi], id));
    let ws1 = ws0.update(wi, world_with_ledger_name(ws0[wi], name));
    // The folder did not list the world yet: its ledger lacks the name.
    assert(!fs0[fi].world_ids.contains(id));
    assert(folder_names_unique(fs1));
    assert(world_ids_unique(ws1));
    assert forall|i: int| 0 <= i < fs1.len() implies no_dup((#[trigger] fs1[i]).world_ids) by {
        if i == fi {
            let s = fs1[fi].world_ids;
            assert forall|a: int, b: int| 0 <= a < b < s.len() implies s[a] != s[b] by {
                if b == s.len() - 1 {
                    assert(s[a] == fs0[fi].world_ids[a]);
                    if s[a] == id {
                        assert(fs0[fi].world_ids.contains(id));
                    }
                }
            }
        }
    }
    assert forall|j: int| 0 <= j < ws1.len() implies no_dup((#[trigger] ws1[j]).user_data.folders) by {
        if j == wi {
            let s = ws1[wi].user_data.folders;
            assert forall|a: int, b: int| 0 <= a < b < s.len() implies s[a] != s[b] by {
                if b == s.len() - 1 {
                    assert(s[a] == ws0[wi].user_data.folders[a]);
                    if s[a] == name {
                        assert(ws0[wi].user_data.folders.contains(name));
                    }
                }
            }
        }
    }
    assert forall|i: int, k: int|
        0 <= i < fs1.len() && 0 <= k < (#[trigger] fs1[i]).world_ids.len() implies has_world(
        ws1,
        #[trigger] fs1[i].world_ids[k],
    ) by {
        let v = fs1[i].world_ids[k];
        if i == fi && k == fs1[fi].world_ids.len() - 1 {
            assert(ws1[wi].api_data.world_id == v);
        } else {
            assert(v == fs0[i].world_ids[k]);
            assert(has_world(ws0, v));
            let j = choose|j: int| 0 <= j < ws0.len() && (#[trigger] ws0[j]).api_data.world_id == v;
            assert(ws1[j].api_data.world_id == v);
        }
    }
    assert forall|i: int, j: int|
        0 <= i < fs1.len() && 0 <= j < ws1.len() && (#[trigger] ws1[j]).user_data.hidden implies !(
    #[trigger] fs1[i]).world_ids.contains(ws1[j].api_data.world_id) by {
        assert(j != wi);
        assert(ws1[j] == ws0[j]);
        let v = ws0[j].api_data.world_id;
        if i == fi {
            assert(!fs0[fi].world_ids.contains(v));
            if fs1[fi].world_ids.contains(v) {
                let k = choose|k: int|
                    0 <= k < fs1[fi].world_ids.len() && fs1[fi].world_ids[k] == v;
                if k < fs1[fi].world_ids.len() - 1 {
                    assert(fs0[fi].world_ids[k] == v);
                    assert(fs0[fi].world_ids.contains(v));
                } else {
                    // v would be the freshly pushed id of a visible world
                    assert(v == id);
                    assert(world_ids_unique(ws0));
                }
            }
        } else {
            assert(fs1[i] == fs0[i]);
        }
    }
    assert forall|i: int, j: int|
        0 <= i < fs1.len() && 0 <= j < ws1.len() && !(#[trigger] ws1[j]).user_data.hidden implies ((
    #[trigger] fs1[i]).world_ids.contains(ws1[j].api_data.world_id)
        <==> ws1[j].user_data.folders.contains(fs1[i].folder_name)) by {
        lemma_add_pair_iff(fs0, ws0, fi, wi, i, j);
    }
    assert forall|j: int, n: int|
        0 <= j < ws1.len() && !(#[trigger] ws1[j]).user_data.hidden && 0 <= n < ws1[j].user_data.folders.len()
        implies has_folder(fs1, #[trigger] ws1[j].user_data.folders[n]) by {
        let v = ws1[j].user_data.folders[n];
        if j == wi && n == ws1[wi].user_data.folders.len() - 1 {
            assert(fs1[fi].folder_name == v);
        } else {
            assert(v == ws0[j].user_data.folders[n]);
            assert(has_folder(fs0, v));
            let i = choose|i: int| 0 <= i < fs0.len() && (#[trigger] fs0[i]).folder_name == v;
            assert(fs1[i].folder_name == v);
        }
    }
}

/// The membership/ledger agreement of each visible world survives the
/// paired append.
proof fn lemma_add_pair_iff(fs0: Seq<FolderV>, ws0: Seq<WorldV>, fi: int, wi: int, i: int, j: int)
    requires
        consistent(fs0, ws0),
        0 <= fi < fs0.len(),
        0 <= wi < ws0.len(),
        !ws0[wi].user_data.hidden,
        !ws0[wi].user_data.folders.contains(fs0[fi].folder_name),
        0 <= i < fs0.len(),
        0 <= j < ws0.len(),
        !ws0.update(wi, world_with_ledger_name(ws0[wi], fs0[fi].folder_name))[j].user_data.hidden,
    ensures
        ({
            let fs1 = fs0.update(fi, folder_with_id(fs0[fi], ws0[wi].api_data.world_id));
            let ws1 = ws0.update(wi, world_with_ledger_name(ws0[wi], fs0[fi].folder_name));
            fs1[i].world_ids.contains(ws1[j].api_data.world_id)
                <==> ws1[j].user_data.folders.contains(fs1[i].folder_name)
        }),
{
    let name = fs0[fi].folder_name;
    let id = ws0[wi].api_data.world_id;
    let fs1 = fs0.update(fi, folder_with_id(fs0[fi], id));
    let ws1 = ws0.update(wi, world_with_ledger_name(ws0[wi], name));
    let jid = ws1[j].api_data.world_id;
    let iname = fs1[i].folder_name;
    assert(jid == ws0[j].api_data.world_id);
    assert(iname == fs0[i].folder_name);
    assert(!ws0[j].user_data.hidden);
    // Membership and ledger each grew by at most the one pushed entry.
    assert(fs1[i].world_ids.contains(jid) <==> (fs0[i].world_ids.contains(jid) || (i == fi && j
        == wi))) by {
        if i == fi {
            assert(fs1[fi].world_ids == fs0[fi].world_ids.push(id));
            if fs0[i].world_ids.contains(jid) {
                let k = choose|k: int|
                    0 <= k < fs0[i].world_ids.len() && fs0[i].world_ids[k] == jid;
                assert(fs1[i].world_ids[k] == jid);
            }
            if fs1[i].world_ids.contains(jid) {
                let k = choose|k: int|
                    0 <= k < fs1[i].world_ids.len() && fs1[i].world_ids[k] == jid;
                if k < fs1[i].world_ids.len() - 1 {
                    assert(fs0[i].world_ids[k] == jid);
                } else {
                    assert(jid == id);
                    if j != wi {
                        assert(world_ids_unique(ws0));
                        assert(false);
                    }
                }
            }
            if i == fi && j == wi {
                assert(fs1[i].world_ids.last() == id);
            }
        } else {
            assert(fs1[i] == fs0[i]);
        }
    }
    assert(ws1[j].user_data.folders.contains(iname) <==> (ws0[j].user_data.folders.contains(iname)
        || (i == fi && j == wi))) by {
        if j == wi {
            assert(ws1[wi].user_data.folders == ws0[wi].user_data.folders.push(name));
            if ws0[j].user_data.folders.contains(iname) {
                let n = choose|n: int|
                    0 <= n < ws0[j].user_data.folders.len() && ws0[j].user_data.folders[n] == iname;
                assert(ws1[j].user_data.folders[n] == iname);
            }
            if ws1[j].user_data.folders.contains(iname) {
                let n = choose|n: int|
                    0 <= n < ws1[j].user_data.folders.len() && ws1[j].user_data.folders[n] == iname;
                if n < ws1[j].user_data.folders.len() - 1 {
                    assert(ws0[j].user_data.folders[n] == iname);
                } else {
                    assert(iname == name);
                    if i != fi {
                        assert(folder_names_unique(fs0));
                        assert(false);
                    }
                }
            }
            if i == fi && j == wi {
                assert(ws1[j].user_data.folders.last() == name);
            }
        } else {
            assert(ws1[j] == ws0[j]);
        }
    }
    if i == fi && j == wi {
    } else {
        assert(fs0[i].world_ids.contains(jid) <==> ws0[j].user_data.folders.contains(iname));
    }
}

/// Appends a member identifier to the folder at `i`, leaving every other
/// folder as it was.
fn folder_push_id(folders: &mut Vec<FolderModel>, i: usize, id: String)
    requires
        i < old(folders)@.len(),
    ensures
        final(folders)@.len() == old(folders)@.len(),
        fviews(final(folders)@) == fviews(old(folders)@).update(
            i as int,
            folder_with_id(fviews(old(folders)@)[i as int], id@),
        ),
{
    let mut f = folders.remove(i);
    f.world_ids.push(id);
    folders.insert(i, f);
    proof {
        let pre = fviews(old(folders)@);
        let post = fviews(folders@);
        assert(folders@ =~= old(folders)@.update(i as int, folders@[i as int]));
        assert(folders@[i as int].world_ids@ == old(folders)@[i as int].world_ids@.push(
            folders@[i as int].world_ids@.last(),
        ));
        assert forall|k: int| 0 <= k < post.len() implies post[k] == pre.update(
            i as int,
            folder_with_id(pre[i as int], id@),
        )[k] by {
            assert(post[k] == folders@[k]@);
            assert(pre[k] == old(folders)@[k]@);
            if k == i as int {
                assert(folders@[k]@.world_ids =~= pre[k].world_ids.push(id@));
            }
        }
        assert(post =~= pre.update(i as int, folder_with_id(pre[i as int], id@)));
    }
}

/// Appends a folder name to the ledger of the world at `i`, leaving every
/// other world as it was.
fn world_push_ledger_name(worlds: &mut Vec<WorldModel>, i: usize, name: String)
    requires
        i < old(worlds)@.len(),
    ensures
        final(worlds)@.len() == old(worlds)@.len(),
        wviews(final(worlds)@) == wviews(old(worlds)@).update(
            i as int,
            world_with_ledger_name(wviews(old(worlds)@)[i as int], name@),
        ),
{
    let mut w = worlds.remove(i);
    w.user_data.folders.push(name);
    worlds.insert(i, w);
    proof {
        let pre = wviews(old(worlds)@);
        let post = wviews(worlds@);
        assert(worlds@ =~= old(worlds)@.update(i as int, worlds@[i as int]));
        assert forall|k: int| 0 <= k < post.len() implies post[k] == pre.update(
            i as int,
            world_with_ledger_name(pre[i as int], name@),
        )[k] by {
            assert(post[k] == worlds@[k]@);
            assert(pre[k] == old(worlds)@[k]@);
            if k == i as int {
                assert(worlds@[k]@.user_data.folders =~= pre[k].user_data.folders.push(name@));
                assert(worlds@[k]@ =~~= world_with_ledger_name(pre[k], name@));
            }
        }
        assert(post =~= pre.update(i as int, world_with_ledger_name(pre[i as int], name@)));
    }
}

/// Data the display layer shows of one folder.
pub struct FolderData {
    pub name: String,
    pub world_count: u16,
    pub color: Option<String>,
}

impl FolderData {
    /// Bundles a folder's display data.
    pub fn new(name: String, world_count: u16, color: Option<String>) -> (r: Self)
        ensures
            r.name@ == name@,
            r.world_count == world_count,
            r.color == color,
    {
        FolderData { name, world_count, color }
    }
}

/// The folder and world operations of the store.
pub struct FolderManager;

impl FolderManager {
    /// Adds a world to a folder, appending it to both sides of the
    /// relation. A world already in the folder's ledger is left alone
    /// (adding is idempotent); a hidden world not in the ledger is
    /// refused, since membership of hidden worlds would break the store's
    /// invariant — unhide first. Fails when the folder or the world does
    /// not exist; the store then stands unchanged.
    pub fn add_world_to_folder(
        folder_name: String,
        world_id: String,
        folders: &mut Vec<FolderModel>,
        worlds: &mut Vec<WorldModel>,
    ) -> (r: Result<(), AppError>)
        requires
            consistent(fviews(old(folders)@), wviews(old(worlds)@)),
        ensures
            consistent(fviews(final(folders)@), wviews(final(worlds)@)),
            !has_folder(fviews(old(folders)@), folder_name@) ==> (r matches Err(
                AppError::Entity(EntityError::FolderNotFound(n)),
            ) && n@ == folder_name@),
            has_folder(fviews(old(folders)@), folder_name@) && !has_world(
                wviews(old(worlds)@),
                world_id@,
            ) ==> (r matches Err(AppError::Entity(EntityError::WorldNotFound(n))) && n@
                == world_id@),
            r is Err ==> final(folders)@ == old(folders)@ && final(worlds)@ == old(worlds)@,
            forall|fi: int, wi: int|
                0 <= fi < fviews(old(folders)@).len() && fviews(old(folders)@)[fi].folder_name
                    == folder_name@ && 0 <= wi < wviews(old(worlds)@).len() && wviews(
                    old(worlds)@,
                )[wi].api_data.world_id == world_id@ ==> {
                    let fs0 = fviews(old(folders)@);
                    let ws0 = wviews(old(worlds)@);
                    if ws0[wi].user_data.folders.contains(folder_name@) {
                        r is Ok && final(folders)@ == old(folders)@ && final(worlds)@ == old(worlds)@
                    } else if ws0[wi].user_data.hidden {
                        r matches Err(AppError::Entity(EntityError::InvalidOperation(_)))
                    } else {
                        r is Ok && add_world_post(
                            fs0,
                            ws0,
                            fviews(final(folders)@),
                            wviews(final(worlds)@),
                            fi,
                            wi,
                        )
                    }
                },
    {
        let fi = match find_folder(folders, &folder_name) {
            Some(i) => i,
            None => {
                return Err(AppError::Entity(EntityError::FolderNotFound(folder_name)));
            },
        };
        let wi = match find_world(worlds, &world_id) {
            Some(i) => i,
            None => {
                return Err(AppError::Entity(EntityError::WorldNotFound(world_id)));
            },
        };
        proof {
            assert(fviews(folders@)[fi as int] == folders@[fi as int]@);
            assert(wviews(worlds@)[wi as int] == worlds@[wi as int]@);
        }
        let in_ledger = {
            let w = &worlds[wi];
            crate::text::vec_contains_string(&w.user_data.folders, &folder_name)
        };
        proof {
            crate::entities::lemma_contains_string_deep_view(
                worlds@[wi as int].user_data.folders,
                folder_name@,
            );
        }
        if in_ledger {
            return Ok(());
        }
        if worlds[wi].user_data.hidden {
            return Err(
                AppError::Entity(
                    EntityError::InvalidOperation(
                        String::from_str("cannot add a hidden world to a folder"),
                    ),
                ),
            );
        }
        proof {
            lemma_add_pair_consistent(fviews(folders@), wviews(worlds@), fi as int, wi as int);
        }
        folder_push_id(folders, fi, world_id);
        world_push_ledger_name(worlds, wi, folder_name);
        proof {
            lemma_unique_positions(fviews(old(folders)@), wviews(old(worlds)@), fi as int, wi as int);
        }
        Ok(())
    }
}

/// A list of texts with every occurrence of `v` dropped, order kept.
pub open spec fn without(s: Seq<Seq<char>>, v: Seq<char>) -> Seq<Seq<char>>
    decreases s.len(),
{
    if s.len() == 0 {
        Seq::<Seq<char>>::empty()
    } else {
        let rest = without(s.drop_last(), v);
        if s.last() == v {
            rest
        } else {
            rest.push(s.last())
        }
    }
}

/// What dropping `v` does: `v` is gone, everything else keeps its
/// membership and relative order, nothing new appears.
pub proof fn lemma_without_props(s: Seq<Seq<char>>, v: Seq<char>)
    ensures
        !without(s, v).contains(v),
        forall|x: Seq<char>| x != v ==> without(s, v).contains(x) == s.contains(x),
        no_dup(s) ==> no_dup(without(s, v)),
        forall|k: int| 0 <= k < without(s, v).len() ==> s.contains(#[trigger] without(s, v)[k]),
        !s.contains(v) ==> without(s, v) == s,
    decreases s.len(),
{
    let s2 = without(s, v);
    if s.len() == 0 {
        assert(s2 =~= s);
        assert forall|x: Seq<char>| x != v implies s2.contains(x) == s.contains(x) by {}
    } else {
        let t = s.drop_last();
        lemma_without_props(t, v);
        let r = without(t, v);
        assert forall|x: Seq<char>| x != v implies s2.contains(x) == s.contains(x) by {
            if s.last() == v {
                assert(s2 == r);
                if s.contains(x) {
                    let k = choose|k: int| 0 <= k < s.len() && s[k] == x;
                    assert(k < s.len() - 1);
                    assert(t[k] == x);
                    assert(t.contains(x));
                }
                if t.contains(x) {
                    let k = choose|k: int| 0 <= k < t.len() && t[k] == x;
                    assert(s[k] == x);
                }
            } else {
                assert(s2 == r.push(s.last()));
                if s.contains(x) {
                    let k = choose|k: int| 0 <= k < s.len() && s[k] == x;
                    if k == s.len() - 1 {
                        assert(s2.last() == x);
                        assert(s2.contains(x));
                    } else {
                        assert(t[k] == x);
                        assert(t.contains(x));
                        assert(r.contains(x));
                        let m = choose|m: int| 0 <= m < r.len() && r[m] == x;
                        assert(s2[m] == r[m]);
                        assert(s2.contains(x));
                    }
                }
                if s2.contains(x) {
                    let k = choose|k: int| 0 <= k < s2.len() && s2[k] == x;
                    if k == s2.len() - 1 {
                        assert(s.last() == x);
                        assert(s.contains(x));
                    } else {
                        assert(r[k] == x);
                        assert(r.contains(x));
                        assert(t.contains(x));
                        let m = choose|m: int| 0 <= m < t.len() && t[m] == x;
                        assert(s[m] == x);
                        assert(s.contains(x));
                    }
                }
            }
        }
        if s.last() != v {
            assert(!s2.contains(v)) by {
                if s2.contains(v) {
                    let k = choose|k: int| 0 <= k < s2.len() && s2[k] == v;
                    assert(k < s2.len() - 1 ==> r[k] == v && r.contains(v));
                }
            }
        }
        if no_dup(s) {
            assert(no_dup(t)) by {
                assert(forall|a: int| 0 <= a < t.len() ==> t[a] == s[a]);
            }
            assert forall|a: int, b: int| 0 <= a < b < s2.len() implies s2[a] != s2[b] by {
                if s.last() != v && b == s2.len() - 1 {
                    assert(r[a] == s2[a]);
                    assert(t.contains(s2[a]));
                    let m = choose|m: int| 0 <= m < t.len() && t[m] == s2[a];
                    assert(s[m] == s2[a]);
                    assert(s[m] != s.last());
                }
            }
        }
        assert forall|k: int| 0 <= k < s2.len() implies s.contains(#[trigger] s2[k]) by {
            if s.last() == v || k < s2.len() - 1 {
                assert(t.contains(s2[k]));
                let m = choose|m: int| 0 <= m < t.len() && t[m] == s2[k];
                assert(s[m] == s2[k]);
            }
        }
        if !s.contains(v) {
            assert(s.last() != v);
            assert(!t.contains(v)) by {
                if t.contains(v) {
                    let k = choose|k: int| 0 <= k < t.len() && t[k] == v;
                    assert(s[k] == v);
                }
            }
            assert(s2 =~= s);
        }
    }
}

/// Copies a list of strings with every string reading as `v` dropped.
pub fn vec_without(list: &Vec<String>, v: &String) -> (r: Vec<String>)
    ensures
        r.deep_view() == without(list.deep_view(), v@),
{
    let mut r: Vec<String> = Vec::new();
    let mut i: usize = 0;
    proof {
        assert(list.deep_view().subrange(0, 0) =~= Seq::<Seq<char>>::empty());
        assert(r.deep_view() =~= without(list.deep_view().subrange(0, 0), v@));
    }
    while i < list.len()
        invariant
            0 <= i <= list@.len(),
            list.deep_view().len() == list@.len(),
            r.deep_view() == without(list.deep_view().subrange(0, i as int), v@),
        decreases list@.len() - i,
    {
        proof {
            assert(list.deep_view()[i as int] == list@[i as int]@);
            assert(list.deep_view().subrange(0, i + 1).drop_last() =~= list.deep_view().subrange(
                0,
                i as int,
            ));
            assert(list.deep_view().subrange(0, i + 1).last() == list@[i as int]@);
        }
        if !(list[i] == *v) {
            r.push(list[i].clone());
            proof {
                assert(vstd::pervasive::cloned::<String>(list@[i as int], r@[r@.len() - 1]));
                assert(r.deep_view() =~= without(list.deep_view().subrange(0, i + 1), v@));
            }
        }
        i = i + 1;
    }
    proof {
        assert(list.deep_view().subrange(0, list@.len() as int) =~= list.deep_view());
    }
    r
}

/// A folder's view with a member identifier dropped.
pub open spec fn folder_without_id(f: FolderV, id: Seq<char>) -> FolderV {
    FolderV { world_ids: without(f.world_ids, id), ..f }
}

/// A world's view with a folder name dropped from its ledger.
pub open spec fn world_without_ledger_name(w: WorldV, name: Seq<char>) -> WorldV {
    WorldV {
        user_data: WorldUserV { folders: without(w.user_data.folders, name), ..w.user_data },
        ..w
    }
}

/// What [`FolderManager::remove_world_from_folder`] does on success,
/// stated over the views: the identifier leaves the folder's member list
/// and the folder's name leaves the world's ledger.
pub open spec fn remove_world_post(
    fs0: Seq<FolderV>,
    ws0: Seq<WorldV>,
    fs1: Seq<FolderV>,
    ws1: Seq<WorldV>,
    fi: int,
    wi: int,
) -> bool {
    fs1 == fs0.update(fi, folder_without_id(fs0[fi], ws0[wi].api_data.world_id)) && ws1
        == ws0.update(wi, world_without_ledger_name(ws0[wi], fs0[fi].folder_name))
}

/// Dropping a world from a folder on both sides at once keeps the store
/// consistent.
proof fn lemma_remove_pair_consistent(fs0: Seq<FolderV>, ws0: Seq<WorldV>, fi: int, wi: int)
    requires
        consistent(fs0, ws0),
        0 <= fi < fs0.len(),
        0 <= wi < ws0.len(),
    ensures
        consistent(
            fs0.update(fi, folder_without_id(fs0[fi], ws0[wi].api_data.world_id)),
            ws0.update(wi, world_without_ledger_name(ws0[wi], fs0[fi].folder_name)),
        ),
{
    let name = fs0[fi].folder_name;
    let id = ws0[wi].api_data.world_id;
    let fs1 = fs0.update(fi, folder_without_id(fs0[fi], id));
    let ws1 = ws0.update(wi, world_without_ledger_name(ws0[wi], name));
    lemma_without_props(fs0[fi].world_ids, id);
    lemma_without_props(ws0[wi].user_data.folders, name);
    assert forall|i: int, k: int|
        0 <= i < fs1.len() && 0 <= k < (#[trigger] fs1[i]).world_ids.len() implies has_world(
        ws1,
        #[trigger] fs1[i].world_ids[k],
    ) by {
        let v = fs1[i].world_ids[k];
        assert(fs0[i].world_ids.contains(v)) by {
            if i != fi {
                assert(fs1[i] == fs0[i]);
                assert(fs0[i].world_ids[k] == v);
            }
        }
        let m = choose|m: int| 0 <= m < fs0[i].world_ids.len() && fs0[i].world_ids[m] == v;
        assert(has_world(ws0, v));
        let j = choose|j: int| 0 <= j < ws0.len() && (#[trigger] ws0[j]).api_data.world_id == v;
        assert(ws1[j].api_data.world_id == v);
    }
    assert forall|i: int, j: int|
        0 <= i < fs1.len() && 0 <= j < ws1.len() && (#[trigger] ws1[j]).user_data.hidden implies !(
    #[trigger] fs1[i]).world_ids.contains(ws1[j].api_data.world_id) by {
        let v = ws1[j].api_data.world_id;
        assert(ws0[j].user_data.hidden && ws0[j].api_data.world_id == v);
        if i == fi {
            if fs1[i].world_ids.contains(v) {
                assert(v != id);
                assert(fs0[fi].world_ids.contains(v));
            }
        } else {
            assert(fs1[i] == fs0[i]);
        }
    }
    assert forall|i: int, j: int|
        0 <= i < fs1.len() && 0 <= j < ws1.len() && !(#[trigger] ws1[j]).user_data.hidden implies ((
    #[trigger] fs1[i]).world_ids.contains(ws1[j].api_data.world_id)
        <==> ws1[j].user_data.folders.contains(fs1[i].folder_name)) by {
        let jid = ws1[j].api_data.world_id;
        let iname = fs1[i].folder_name;
        assert(jid == ws0[j].api_data.world_id);
        assert(iname == fs0[i].folder_name);
        assert(!ws0[j].user_data.hidden);
        if i == fi && j == wi {
        } else if i == fi {
            assert(jid != id) by {
                lemma_unique_positions(fs0, ws0, fi, wi);
            }
            assert(fs1[i].world_ids.contains(jid) == fs0[i].world_ids.contains(jid));
            assert(ws1[j] == ws0[j]);
        } else if j == wi {
            assert(iname != name) by {
                lemma_unique_positions(fs0, ws0, fi, wi);
            }
            assert(ws1[j].user_data.folders.contains(iname) == ws0[j].user_data.folders.contains(
                iname,
            ));
            assert(fs1[i] == fs0[i]);
        } else {
            assert(fs1[i] == fs0[i] && ws1[j] == ws0[j]);
        }
    }
    assert forall|j: int, n: int|
        0 <= j < ws1.len() && !(#[trigger] ws1[j]).user_data.hidden && 0 <= n < ws1[j].user_data.folders.len()
        implies has_folder(fs1, #[trigger] ws1[j].user_data.folders[n]) by {
        let v = ws1[j].user_data.folders[n];
        assert(ws0[j].user_data.folders.contains(v)) by {
            if j != wi {
                assert(ws1[j] == ws0[j]);
                assert(ws0[j].user_data.folders[n] == v);
            }
        }
        assert(has_folder(fs0, v));
        let i = choose|i: int| 0 <= i < fs0.len() && (#[trigger] fs0[i]).folder_name == v;
        assert(fs1[i].folder_name == v);
    }
}

/// Replaces the member list of the folder at `i`.
fn folder_set_ids(folders: &mut Vec<FolderModel>, i: usize, ids: Vec<String>)
    requires
        i < old(folders)@.len(),
    ensures
        final(folders)@.len() == old(folders)@.len(),
        fviews(final(folders)@) == fviews(old(folders)@).update(
            i as int,
            (FolderV { world_ids: ids.deep_view(), ..fviews(old(folders)@)[i as int] }),
        ),
{
    let mut f = folders.remove(i);
    f.world_ids = ids;
    folders.insert(i, f);
    proof {
        let pre = fviews(old(folders)@);
        let post = fviews(folders@);
        assert(folders@ =~= old(folders)@.update(i as int, folders@[i as int]));
        assert forall|k: int| 0 <= k < post.len() implies post[k] == pre.update(
            i as int,
            (FolderV { world_ids: post[i as int].world_ids, ..pre[i as int] }),
        )[k] by {
            assert(post[k] == folders@[k]@);
            assert(pre[k] == old(folders)@[k]@);
            if k == i as int {
                assert(folders@[k]@ =~~= (FolderV {
                    world_ids: post[i as int].world_ids,
                    ..pre[i as int]
                }));
            }
        }
        assert(post =~= pre.update(
            i as int,
            (FolderV { world_ids: post[i as int].world_ids, ..pre[i as int] }),
        ));
    }
}

/// Replaces the ledger of the world at `i`.
fn world_set_ledger(worlds: &mut Vec<WorldModel>, i: usize, names: Vec<String>)
    requires
        i < old(worlds)@.len(),
    ensures
        final(worlds)@.len() == old(worlds)@.len(),
        wviews(final(worlds)@) == wviews(old(worlds)@).update(
            i as int,
            (WorldV {
                user_data: WorldUserV {
                    folders: names.deep_view(),
                    ..wviews(old(worlds)@)[i as int].user_data
                },
                ..wviews(old(worlds)@)[i as int]
            }),
        ),
{
    let mut w = worlds.remove(i);
    w.user_data.folders = names;
    worlds.insert(i, w);
    proof {
        let pre = wviews(old(worlds)@);
        let post = wviews(worlds@);
        assert(worlds@ =~= old(worlds)@.update(i as int, worlds@[i as int]));
        assert forall|k: int| 0 <= k < post.len() implies post[k] == pre.update(
            i as int,
            (WorldV {
                user_data: WorldUserV {
                    folders: post[i as int].user_data.folders,
                    ..pre[i as int].user_data
                },
                ..pre[i as int]
            }),
        )[k] by {
            assert(post[k] == worlds@[k]@);
            assert(pre[k] == old(worlds)@[k]@);
            if k == i as int {
                assert(worlds@[k]@ =~~= (WorldV {
                    user_data: WorldUserV {
                        folders: post[i as int].user_data.folders,
                        ..pre[i as int].user_data
                    },
                    ..pre[i as int]
                }));
            }
        }
        assert(post =~= pre.update(
            i as int,
            (WorldV {
                user_data: WorldUserV {
                    folders: post[i as int].user_data.folders,
                    ..pre[i as int].user_data
                },
                ..pre[i as int]
            }),
        ));
    }
}

impl FolderManager {
    /// Removes a world from a folder, dropping it from both sides of the
    /// relation. Fails with the folder's name when the world's ledger does
    /// not name the folder — a stale caller is told rather than silently
    /// losing data — and with the usual not-found errors when either side
    /// is missing. On failure the store stands unchanged.
    pub fn remove_world_from_folder(
        folder_name: String,
        world_id: String,
        folders: &mut Vec<FolderModel>,
        worlds: &mut Vec<WorldModel>,
    ) -> (r: Result<(), AppError>)
        requires
            consistent(fviews(old(folders)@), wviews(old(worlds)@)),
        ensures
            consistent(fviews(final(folders)@), wviews(final(worlds)@)),
            !has_folder(fviews(old(folders)@), folder_name@) ==> (r matches Err(
                AppError::Entity(EntityError::FolderNotFound(n)),
            ) && n@ == folder_name@),
            has_folder(fviews(old(folders)@), folder_name@) && !has_world(
                wviews(old(worlds)@),
                world_id@,
            ) ==> (r matches Err(AppError::Entity(EntityError::WorldNotFound(n))) && n@
                == world_id@),
            r is Err ==> final(folders)@ == old(folders)@ && final(worlds)@ == old(worlds)@,
            forall|fi: int, wi: int|
                0 <= fi < fviews(old(folders)@).len() && fviews(old(folders)@)[fi].folder_name
                    == folder_name@ && 0 <= wi < wviews(old(worlds)@).len() && wviews(
                    old(worlds)@,
                )[wi].api_data.world_id == world_id@ ==> {
                    let fs0 = fviews(old(folders)@);
                    let ws0 = wviews(old(worlds)@);
                    if ws0[wi].user_data.folders.contains(folder_name@) {
                        r is Ok && remove_world_post(
                            fs0,
                            ws0,
                            fviews(final(folders)@),
                            wviews(final(worlds)@),
                            fi,
                            wi,
                        )
                    } else {
                        r matches Err(AppError::Entity(EntityError::FolderNotFound(n))) && n@
                            == folder_name@
                    }
                },
    {
        let fi = match find_folder(folders, &folder_name) {
            Some(i) => i,
            None => {
                return Err(AppError::Entity(EntityError::FolderNotFound(folder_name)));
            },
        };
        let wi = match find_world(worlds, &world_id) {
            Some(i) => i,
            None => {
                return Err(AppError::Entity(EntityError::WorldNotFound(world_id)));
            },
        };
        proof {
            assert(fviews(folders@)[fi as int] == folders@[fi as int]@);
            assert(wviews(worlds@)[wi as int] == worlds@[wi as int]@);
            lemma_unique_positions(fviews(folders@), wviews(worlds@), fi as int, wi as int);
        }
        let in_ledger = crate::text::vec_contains_string(
            &worlds[wi].user_data.folders,
            &folder_name,
        );
        proof {
            crate::entities::lemma_contains_string_deep_view(
                worlds@[wi as int].user_data.folders,
                folder_name@,
            );
        }
        if !in_ledger {
            return Err(AppError::Entity(EntityError::FolderNotFound(folder_name)));
        }
        proof {
            lemma_remove_pair_consistent(fviews(folders@), wviews(worlds@), fi as int, wi as int);
        }
        let new_ids = vec_without(&folders[fi].world_ids, &world_id);
        folder_set_ids(folders, fi, new_ids);
        let new_ledger = vec_without(&worlds[wi].user_data.folders, &folder_name);
        world_set_ledger(worlds, wi, new_ledger);
        Ok(())
    }
}

/// Copies an optional string; the copy reads as the original.
pub fn clone_opt_string(o: &Option<String>) -> (r: Option<String>)
    ensures
        (r is Some) <==> (o is Some),
        r matches Some(s) ==> (o matches Some(t) && s@ == t@),
{
    match o {
        Some(s) => Some(s.clone()),
        None => None,
    }
}

/// Consistency does not look at status flags, timestamps or provenance:
/// a world list that keeps every identifier, hidden flag and ledger keeps
/// the store consistent.
pub proof fn lemma_consistent_user_fields(fs: Seq<FolderV>, ws0: Seq<WorldV>, ws1: Seq<WorldV>)
    requires
        consistent(fs, ws0),
        ws1.len() == ws0.len(),
        forall|j: int|
            0 <= j < ws0.len() ==> (#[trigger] ws1[j]).api_data.world_id
                == ws0[j].api_data.world_id && ws1[j].user_data.hidden == ws0[j].user_data.hidden
                && ws1[j].user_data.folders == ws0[j].user_data.folders,
    ensures
        consistent(fs, ws1),
{
    assert forall|i: int, k: int|
        0 <= i < fs.len() && 0 <= k < (#[trigger] fs[i]).world_ids.len() implies has_world(
        ws1,
        #[trigger] fs[i].world_ids[k],
    ) by {
        let v = fs[i].world_ids[k];
        assert(has_world(ws0, v));
        let j = choose|j: int| 0 <= j < ws0.len() && (#[trigger] ws0[j]).api_data.world_id == v;
        assert(ws1[j].api_data.world_id == v);
    }
}

/// The worlds that are not hidden, projected for display, in store order.
pub open spec fn spec_visible_displays(ws: Seq<WorldV>) -> Seq<crate::entities::WorldDisplayV>
    decreases ws.len(),
{
    if ws.len() == 0 {
        Seq::<crate::entities::WorldDisplayV>::empty()
    } else {
        let rest = spec_visible_displays(ws.drop_last());
        if !ws.last().user_data.hidden {
            rest.push(crate::entities::spec_display_data(ws.last()))
        } else {
            rest
        }
    }
}

/// The worlds in no folder and not hidden, projected for display.
pub open spec fn spec_unclassified_displays(ws: Seq<WorldV>) -> Seq<crate::entities::WorldDisplayV>
    decreases ws.len(),
{
    if ws.len() == 0 {
        Seq::<crate::entities::WorldDisplayV>::empty()
    } else {
        let rest = spec_unclassified_displays(ws.drop_last());
        if ws.last().user_data.folders.len() == 0 && !ws.last().user_data.hidden {
            rest.push(crate::entities::spec_display_data(ws.last()))
        } else {
            rest
        }
    }
}

/// The hidden worlds, projected for display.
pub open spec fn spec_hidden_displays(ws: Seq<WorldV>) -> Seq<crate::entities::WorldDisplayV>
    decreases ws.len(),
{
    if ws.len() == 0 {
        Seq::<crate::entities::WorldDisplayV>::empty()
    } else {
        let rest = spec_hidden_displays(ws.drop_last());
        if ws.last().user_data.hidden {
            rest.push(crate::entities::spec_display_data(ws.last()))
        } else {
            rest
        }
    }
}

/// Whether a display list matches a member list against a world list:
/// same length, and each entry is the display projection of the world
/// bearing the member identifier at its position.
pub open spec fn displays_match_ids(
    list: Seq<crate::entities::WorldDisplayData>,
    ids: Seq<Seq<char>>,
    ws: Seq<WorldV>,
) -> bool {
    list.len() == ids.len() && (forall|k: int|
        0 <= k < list.len() ==> exists|j: int|
            0 <= j < ws.len() && (#[trigger] ws[j]).api_data.world_id == ids[k] && (
            #[trigger] list[k])@ == crate::entities::spec_display_data(ws[j]))
}

/// The display views of a display list.
pub open spec fn dviews(ds: Seq<crate::entities::WorldDisplayData>) -> Seq<
    crate::entities::WorldDisplayV,
> {
    ds.map_values(|d: crate::entities::WorldDisplayData| d@)
}

impl FolderManager {
    /// Sets a world's photographed flag; everything else about every
    /// world stays as it was.
    pub fn set_world_photographed(
        world_id: String,
        is_photographed: bool,
        worlds: &mut Vec<WorldModel>,
    ) -> (r: Result<(), AppError>)
        ensures
            r is Ok <==> has_world(wviews(old(worlds)@), world_id@),
            r matches Err(e) ==> (e matches AppError::Entity(EntityError::WorldNotFound(n)) && n@
                == world_id@) && final(worlds)@ == old(worlds)@,
            r is Ok ==> exists|wi: int|
                0 <= wi < wviews(old(worlds)@).len() && (#[trigger] wviews(
                    old(worlds)@,
                )[wi]).api_data.world_id == world_id@ && wviews(final(worlds)@) == wviews(
                    old(worlds)@,
                ).update(
                    wi,
                    (WorldV {
                        user_data: WorldUserV {
                            is_photographed,
                            ..wviews(old(worlds)@)[wi].user_data
                        },
                        ..wviews(old(worlds)@)[wi]
                    }),
                ),
    {
        let wi = match find_world(worlds, &world_id) {
            Some(i) => i,
            None => {
                return Err(AppError::Entity(EntityError::WorldNotFound(world_id)));
            },
        };
        let ghost pre = wviews(worlds@);
        let mut w = worlds.remove(wi);
        w.user_data.is_photographed = is_photographed;
        worlds.insert(wi, w);
        proof {
            assert(worlds@ =~= old(worlds)@.update(wi as int, worlds@[wi as int]));
            assert forall|k: int| 0 <= k < wviews(worlds@).len() implies wviews(worlds@)[k]
                == pre.update(
                wi as int,
                (WorldV {
                    user_data: WorldUserV { is_photographed, ..pre[wi as int].user_data },
                    ..pre[wi as int]
                }),
            )[k] by {
                assert(wviews(worlds@)[k] == worlds@[k]@);
                assert(pre[k] == old(worlds)@[k]@);
                if k == wi as int {
                    assert(worlds@[k]@ =~~= (WorldV {
                        user_data: WorldUserV { is_photographed, ..pre[wi as int].user_data },
                        ..pre[wi as int]
                    }));
                }
            }
            assert(wviews(worlds@) =~= pre.update(
                wi as int,
                (WorldV {
                    user_data: WorldUserV { is_photographed, ..pre[wi as int].user_data },
                    ..pre[wi as int]
                }),
            ));
            assert(pre[wi as int].api_data.world_id == world_id@);
        }
        Ok(())
    }

    /// Sets a world's shared flag; everything else about every world
    /// stays as it was.
    pub fn set_world_shared(
        world_id: String,
        is_shared: bool,
        worlds: &mut Vec<WorldModel>,
    ) -> (r: Result<(), AppError>)
        ensures
            r is Ok <==> has_world(wviews(old(worlds)@), world_id@),
            r matches Err(e) ==> (e matches AppError::Entity(EntityError::WorldNotFound(n)) && n@
                == world_id@) && final(worlds)@ == old(worlds)@,
            r is Ok ==> exists|wi: int|
                0 <= wi < wviews(old(worlds)@).len() && (#[trigger] wviews(
                    old(worlds)@,
                )[wi]).api_data.world_id == world_id@ && wviews(final(worlds)@) == wviews(
                    old(worlds)@,
                ).update(
                    wi,
                    (WorldV {
                        user_data: WorldUserV { is_shared, ..wviews(old(worlds)@)[wi].user_data },
                        ..wviews(old(worlds)@)[wi]
                    }),
                ),
    {
        let wi = match find_world(worlds, &world_id) {
            Some(i) => i,
            None => {
                return Err(AppError::Entity(EntityError::WorldNotFound(world_id)));
            },
        };
        let ghost pre = wviews(worlds@);
        let mut w = worlds.remove(wi);
        w.user_data.is_shared = is_shared;
        worlds.insert(wi, w);
        proof {
            assert(worlds@ =~= old(worlds)@.update(wi as int, worlds@[wi as int]));
            assert forall|k: int| 0 <= k < wviews(worlds@).len() implies wviews(worlds@)[k]
                == pre.update(
                wi as int,
                (WorldV {
                    user_data: WorldUserV { is_shared, ..pre[wi as int].user_data },
                    ..pre[wi as int]
                }),
            )[k] by {
                assert(wviews(worlds@)[k] == worlds@[k]@);
                assert(pre[k] == old(worlds)@[k]@);
                if k == wi as int {
                    assert(worlds@[k]@ =~~= (WorldV {
                        user_data: WorldUserV { is_shared, ..pre[wi as int].user_data },
                        ..pre[wi as int]
                    }));
                }
            }
            assert(wviews(worlds@) =~= pre.update(
                wi as int,
                (WorldV {
                    user_data: WorldUserV { is_shared, ..pre[wi as int].user_data },
                    ..pre[wi as int]
                }),
            ));
            assert(pre[wi as int].api_data.world_id == world_id@);
        }
        Ok(())
    }

    /// Sets a world's favorite flag, recording the same flag in the
    /// side-channel override store (kept there for older readers);
    /// everything else about every world stays as it was.
    pub fn set_world_favorite(
        world_id: String,
        is_favorite: bool,
        worlds: &mut Vec<WorldModel>,
        custom_data: &mut crate::custom_data::CustomData,
    ) -> (r: Result<(), AppError>)
        requires
            old(custom_data).wf(),
        ensures
            final(custom_data).wf(),
            r is Ok <==> has_world(wviews(old(worlds)@), world_id@),
            r matches Err(e) ==> (e matches AppError::Entity(EntityError::WorldNotFound(n)) && n@
                == world_id@) && final(worlds)@ == old(worlds)@ && *final(custom_data) == *old(custom_data),
            r is Ok ==> crate::custom_data::CustomData::spec_flag(
                final(custom_data).world_favorites@,
                world_id@,
            ) == is_favorite && (forall|k: Seq<char>|
                k != world_id@ ==> crate::kv::spec_lookup(final(custom_data).world_favorites@, k)
                    == crate::kv::spec_lookup(old(custom_data).world_favorites@, k)) && final(custom_data).folder_colors == old(custom_data).folder_colors,
            r is Ok ==> exists|wi: int|
                0 <= wi < wviews(old(worlds)@).len() && (#[trigger] wviews(
                    old(worlds)@,
                )[wi]).api_data.world_id == world_id@ && wviews(final(worlds)@) == wviews(
                    old(worlds)@,
                ).update(
                    wi,
                    (WorldV {
                        user_data: WorldUserV {
                            is_favorite,
                            ..wviews(old(worlds)@)[wi].user_data
                        },
                        ..wviews(old(worlds)@)[wi]
                    }),
                ),
    {
        let wi = match find_world(worlds, &world_id) {
            Some(i) => i,
            None => {
                return Err(AppError::Entity(EntityError::WorldNotFound(world_id)));
            },
        };
        let ghost pre = wviews(worlds@);
        let mut w = worlds.remove(wi);
        w.user_data.is_favorite = is_favorite;
        worlds.insert(wi, w);
        custom_data.set_world_favorite(world_id.as_str(), is_favorite);
        proof {
            assert(worlds@ =~= old(worlds)@.update(wi as int, worlds@[wi as int]));
            assert forall|k: int| 0 <= k < wviews(worlds@).len() implies wviews(worlds@)[k]
                == pre.update(
                wi as int,
                (WorldV {
                    user_data: WorldUserV { is_favorite, ..pre[wi as int].user_data },
                    ..pre[wi as int]
                }),
            )[k] by {
                assert(wviews(worlds@)[k] == worlds@[k]@);
                assert(pre[k] == old(worlds)@[k]@);
                if k == wi as int {
                    assert(worlds@[k]@ =~~= (WorldV {
                        user_data: WorldUserV { is_favorite, ..pre[wi as int].user_data },
                        ..pre[wi as int]
                    }));
                }
            }
            assert(wviews(worlds@) =~= pre.update(
                wi as int,
                (WorldV {
                    user_data: WorldUserV { is_favorite, ..pre[wi as int].user_data },
                    ..pre[wi as int]
                }),
            ));
            assert(pre[wi as int].api_data.world_id == world_id@);
        }
        Ok(())
    }

    /// Lists every folder's name, member count and color, in folder
    /// order. (A count above `u16::MAX` saturates there.)
    pub fn get_folders(folders: &Vec<FolderModel>) -> (r: Result<Vec<FolderData>, AppError>)
        ensures
            r matches Ok(list) && list@.len() == folders@.len(),
            r matches Ok(list) ==> forall|i: int|
                0 <= i < folders@.len() ==> {
                    let f = #[trigger] folders@[i];
                    let d = list@[i];
                    d.name@ == f.folder_name@ && (f.world_ids@.len() <= u16::MAX
                        ==> d.world_count == f.world_ids@.len()) && ((d.color is Some) <==> (
                    f.color is Some)) && (d.color matches Some(c) ==> f.color matches Some(c2)
                        && c@ == c2@)
                },
    {
        let mut folder_data: Vec<FolderData> = Vec::new();
        let mut i: usize = 0;
        while i < folders.len()
            invariant
                0 <= i <= folders@.len(),
                folder_data@.len() == i,
                forall|k: int|
                    0 <= k < i ==> {
                        let f = #[trigger] folders@[k];
                        let d = folder_data@[k];
                        d.name@ == f.folder_name@ && (f.world_ids@.len() <= u16::MAX
                            ==> d.world_count == f.world_ids@.len()) && ((d.color is Some) <==> (
                        f.color is Some)) && (d.color matches Some(c) ==> f.color matches Some(c2)
                            && c@ == c2@)
                    },
            decreases folders@.len() - i,
        {
            let f = &folders[i];
            let count: u16 = if f.world_ids.len() <= 65535 {
                f.world_ids.len() as u16
            } else {
                65535
            };
            folder_data.push(FolderData::new(f.folder_name.clone(), count, clone_opt_string(&f.color)));
            i = i + 1;
        }
        Ok(folder_data)
    }

    /// The ledger of the world with the given identifier: the folders it
    /// belongs to (for a hidden world, the folders it will return to).
    pub fn get_folders_for_world(
        world_id: String,
        worlds: &Vec<WorldModel>,
    ) -> (r: Result<Vec<String>, AppError>)
        ensures
            (r is Ok) <==> has_world(wviews(worlds@), world_id@),
            r matches Err(e) ==> e matches AppError::Entity(EntityError::WorldNotFound(n)) && n@
                == world_id@,
            r matches Ok(list) ==> exists|wi: int|
                0 <= wi < wviews(worlds@).len() && (#[trigger] wviews(
                    worlds@,
                )[wi]).api_data.world_id == world_id@ && list.deep_view() == wviews(
                    worlds@,
                )[wi].user_data.folders,
    {
        let wi = match find_world(worlds, &world_id) {
            Some(i) => i,
            None => {
                return Err(AppError::Entity(EntityError::WorldNotFound(world_id)));
            },
        };
        let list = crate::text::clone_string_vec(&worlds[wi].user_data.folders);
        proof {
            assert(wviews(worlds@)[wi as int] == worlds@[wi as int]@);
            assert forall|k: int| 0 <= k < list.deep_view().len() implies list.deep_view()[k]
                == wviews(worlds@)[wi as int].user_data.folders[k] by {
                assert(list.deep_view()[k] == list@[k]@);
                assert(list@[k] == worlds@[wi as int].user_data.folders@[k]);
            }
            assert(list.deep_view() =~= wviews(worlds@)[wi as int].user_data.folders);
        }
        Ok(list)
    }

    /// Every world that is not hidden, projected for display, in store
    /// order.
    pub fn get_all_worlds(worlds: &Vec<WorldModel>) -> (r: Result<Vec<
        crate::entities::WorldDisplayData,
    >, AppError>)
        ensures
            r matches Ok(list) && dviews(list@) == spec_visible_displays(wviews(worlds@)),
    {
        let mut out: Vec<crate::entities::WorldDisplayData> = Vec::new();
        let mut i: usize = 0;
        proof {
            assert(wviews(worlds@).subrange(0, 0) =~= Seq::<WorldV>::empty());
            assert(dviews(out@) =~= spec_visible_displays(wviews(worlds@).subrange(0, 0)));
        }
        while i < worlds.len()
            invariant
                0 <= i <= worlds@.len(),
                wviews(worlds@).len() == worlds@.len(),
                dviews(out@) == spec_visible_displays(wviews(worlds@).subrange(0, i as int)),
            decreases worlds@.len() - i,
        {
            proof {
                assert(wviews(worlds@).subrange(0, i + 1).drop_last() =~= wviews(
                    worlds@,
                ).subrange(0, i as int));
                assert(wviews(worlds@).subrange(0, i + 1).last() == worlds@[i as int]@);
            }
            if !worlds[i].user_data.hidden {
                out.push(worlds[i].to_display_data());
                proof {
                    assert(dviews(out@) =~= spec_visible_displays(
                        wviews(worlds@).subrange(0, i + 1),
                    ));
                }
            }
            i = i + 1;
        }
        proof {
            assert(wviews(worlds@).subrange(0, worlds@.len() as int) =~= wviews(worlds@));
        }
        Ok(out)
    }

    /// Every world in no folder and not hidden, projected for display, in
    /// store order.
    pub fn get_unclassified_worlds(worlds: &Vec<WorldModel>) -> (r: Result<Vec<
        crate::entities::WorldDisplayData,
    >, AppError>)
        ensures
            r matches Ok(list) && dviews(list@) == spec_unclassified_displays(wviews(worlds@)),
    {
        let mut out: Vec<crate::entities::WorldDisplayData> = Vec::new();
        let mut i: usize = 0;
        proof {
            assert(wviews(worlds@).subrange(0, 0) =~= Seq::<WorldV>::empty());
            assert(dviews(out@) =~= spec_unclassified_displays(wviews(worlds@).subrange(0, 0)));
        }
        while i < worlds.len()
            invariant
                0 <= i <= worlds@.len(),
                wviews(worlds@).len() == worlds@.len(),
                dviews(out@) == spec_unclassified_displays(wviews(worlds@).subrange(0, i as int)),
            decreases worlds@.len() - i,
        {
            proof {
                assert(wviews(worlds@).subrange(0, i + 1).drop_last() =~= wviews(
                    worlds@,
                ).subrange(0, i as int));
                assert(wviews(worlds@).subrange(0, i + 1).last() == worlds@[i as int]@);
            }
            if worlds[i].user_data.folders.len() == 0 && !worlds[i].user_data.hidden {
                out.push(worlds[i].to_display_data());
                proof {
                    assert(dviews(out@) =~= spec_unclassified_displays(
                        wviews(worlds@).subrange(0, i + 1),
                    ));
                }
            }
            i = i + 1;
        }
        proof {
            assert(wviews(worlds@).subrange(0, worlds@.len() as int) =~= wviews(worlds@));
        }
        Ok(out)
    }

    /// Every hidden world, projected for display, in store order.
    pub fn get_hidden_worlds(worlds: &Vec<WorldModel>) -> (r: Result<Vec<
        crate::entities::WorldDisplayData,
    >, AppError>)
        ensures
            r matches Ok(list) && dviews(list@) == spec_hidden_displays(wviews(worlds@)),
    {
        let mut out: Vec<crate::entities::WorldDisplayData> = Vec::new();
        let mut i: usize = 0;
        proof {
            assert(wviews(worlds@).subrange(0, 0) =~= Seq::<WorldV>::empty());
            assert(dviews(out@) =~= spec_hidden_displays(wviews(worlds@).subrange(0, 0)));
        }
        while i < worlds.len()
            invariant
                0 <= i <= worlds@.len(),
                wviews(worlds@).len() == worlds@.len(),
                dviews(out@) == spec_hidden_displays(wviews(worlds@).subrange(0, i as int)),
            decreases worlds@.len() - i,
        {
            proof {
                assert(wviews(worlds@).subrange(0, i + 1).drop_last() =~= wviews(
                    worlds@,
                ).subrange(0, i as int));
                assert(wviews(worlds@).subrange(0, i + 1).last() == worlds@[i as int]@);
            }
            if worlds[i].user_data.hidden {
                out.push(worlds[i].to_display_data());
                proof {
                    assert(dviews(out@) =~= spec_hidden_displays(
                        wviews(worlds@).subrange(0, i + 1),
                    ));
                }
            }
            i = i + 1;
        }
        proof {
            assert(wviews(worlds@).subrange(0, worlds@.len() as int) =~= wviews(worlds@));
        }
        Ok(out)
    }

    /// The worlds of one folder, projected for display, in the folder's
    /// member order. Under a consistent store every member resolves, so
    /// the call succeeds exactly when the folder exists.
    pub fn get_worlds(
        folder_name: String,
        folders: &Vec<FolderModel>,
        worlds: &Vec<WorldModel>,
    ) -> (r: Result<Vec<crate::entities::WorldDisplayData>, AppError>)
        requires
            consistent(fviews(folders@), wviews(worlds@)),
        ensures
            (r is Ok) <==> has_folder(fviews(folders@), folder_name@),
            r matches Err(e) ==> e matches AppError::Entity(EntityError::FolderNotFound(n)) && n@
                == folder_name@,
            r matches Ok(list) ==> forall|fi: int|
                0 <= fi < fviews(folders@).len() && (#[trigger] fviews(
                    folders@,
                )[fi]).folder_name == folder_name@ ==> displays_match_ids(
                    list@,
                    fviews(folders@)[fi].world_ids,
                    wviews(worlds@),
                ),
    {
        let fi = match find_folder(folders, &folder_name) {
            Some(i) => i,
            None => {
                return Err(AppError::Entity(EntityError::FolderNotFound(folder_name)));
            },
        };
        proof {
            assert(fviews(folders@)[fi as int] == folders@[fi as int]@);
        }
        let ids = &folders[fi].world_ids;
        let mut out: Vec<crate::entities::WorldDisplayData> = Vec::new();
        let ghost mut js: Seq<int> = Seq::empty();
        let mut k: usize = 0;
        while k < ids.len()
            invariant
                0 <= k <= ids@.len(),
                out@.len() == k,
                js.len() == k,
                consistent(fviews(folders@), wviews(worlds@)),
                fi < folders@.len(),
                ids@ == folders@[fi as int].world_ids@,
                fviews(folders@)[fi as int] == folders@[fi as int]@,
                forall|a: int|
                    0 <= a < k ==> 0 <= #[trigger] js[a] < wviews(worlds@).len() && wviews(
                        worlds@,
                    )[js[a]].api_data.world_id == fviews(folders@)[fi as int].world_ids[a] && out@[a]@
                        == crate::entities::spec_display_data(wviews(worlds@)[js[a]]),
            decreases ids@.len() - k,
        {
            proof {
                assert(fviews(folders@)[fi as int].world_ids[k as int] == ids@[k as int]@);
                assert(has_world(wviews(worlds@), ids@[k as int]@));
            }
            let wi = match find_world(worlds, &ids[k]) {
                Some(j) => j,
                None => {
                    proof {
                        assert(false);
                    }
                    return Err(AppError::Entity(EntityError::WorldNotFound(ids[k].clone())));
                },
            };
            let ghost pre_out = out@;
            out.push(worlds[wi].to_display_data());
            proof {
                js = js.push(wi as int);
                assert(wviews(worlds@)[wi as int] == worlds@[wi as int]@);
                assert forall|a: int| 0 <= a < k + 1 implies 0 <= #[trigger] js[a] < wviews(
                    worlds@,
                ).len() && wviews(worlds@)[js[a]].api_data.world_id == fviews(
                    folders@,
                )[fi as int].world_ids[a] && out@[a]@ == crate::entities::spec_display_data(
                    wviews(worlds@)[js[a]],
                ) by {
                    if a < k as int {
                        assert(out@[a] == pre_out[a]);
                    }
                }
            }
            k = k + 1;
        }
        proof {
            assert(fviews(folders@)[fi as int].world_ids.len()
                == folders@[fi as int].world_ids@.len());
            assert forall|fi2: int|
                0 <= fi2 < fviews(folders@).len() && (#[trigger] fviews(
                    folders@,
                )[fi2]).folder_name == folder_name@ implies fi2 == fi as int by {
                if fi2 != fi as int {
                    assert(fviews(folders@)[fi as int].folder_name == folder_name@);
                }
            }
            let target = fviews(folders@)[fi as int].world_ids;
            assert(out@.len() == target.len());
            assert forall|k2: int| 0 <= k2 < out@.len() implies exists|j: int|
                0 <= j < wviews(worlds@).len() && (#[trigger] wviews(
                    worlds@,
                )[j]).api_data.world_id == target[k2] && (#[trigger] out@[k2])@
                == crate::entities::spec_display_data(wviews(worlds@)[j]) by {
                let j = js[k2];
                assert(0 <= j < wviews(worlds@).len() && wviews(worlds@)[j].api_data.world_id
                    == target[k2] && out@[k2]@ == crate::entities::spec_display_data(
                    wviews(worlds@)[j],
                ));
            }
            assert(displays_match_ids(out@, target, wviews(worlds@)));
        }
        Ok(out)
    }
}

/// A world's view with its hidden flag set or cleared.
pub open spec fn world_with_hidden(w: WorldV, hidden: bool) -> WorldV {
    WorldV { user_data: WorldUserV { hidden, ..w.user_data }, ..w }
}

/// Every folder with one identifier dropped from its member list: what
/// hiding a world does to the folder side.
pub open spec fn spec_hide_folders(fs: Seq<FolderV>, id: Seq<char>) -> Seq<FolderV> {
    fs.map_values(|f: FolderV| folder_without_id(f, id))
}

/// The ledger names that still name an existing folder, in ledger order:
/// what unhiding keeps of the ledger.
pub open spec fn kept_names(ledger: Seq<Seq<char>>, fs: Seq<FolderV>) -> Seq<Seq<char>>
    decreases ledger.len(),
{
    if ledger.len() == 0 {
        Seq::<Seq<char>>::empty()
    } else {
        let rest = kept_names(ledger.drop_last(), fs);
        if has_folder(fs, ledger.last()) {
            rest.push(ledger.last())
        } else {
            rest
        }
    }
}

/// What keeping the existing names does: membership is membership-and-
/// existence, order and distinctness survive.
pub proof fn lemma_kept_props(ledger: Seq<Seq<char>>, fs: Seq<FolderV>)
    ensures
        forall|x: Seq<char>|
            #[trigger] kept_names(ledger, fs).contains(x) == (ledger.contains(x) && has_folder(
                fs,
                x,
            )),
        no_dup(ledger) ==> no_dup(kept_names(ledger, fs)),
    decreases ledger.len(),
{
    let s2 = kept_names(ledger, fs);
    if ledger.len() == 0 {
        assert forall|x: Seq<char>| #[trigger] s2.contains(x) == (ledger.contains(x) && has_folder(
            fs,
            x,
        )) by {
            if ledger.contains(x) {
                let k = choose|k: int| 0 <= k < ledger.len() && ledger[k] == x;
            }
        }
    } else {
        let t = ledger.drop_last();
        lemma_kept_props(t, fs);
        let r = kept_names(t, fs);
        assert forall|x: Seq<char>| #[trigger] s2.contains(x) == (ledger.contains(x) && has_folder(
            fs,
            x,
        )) by {
            if s2.contains(x) {
                let k = choose|k: int| 0 <= k < s2.len() && s2[k] == x;
                if has_folder(fs, ledger.last()) && k == s2.len() - 1 {
                    assert(x == ledger.last());
                    assert(ledger.contains(x));
                } else {
                    assert(r[k] == x);
                    assert(r.contains(x));
                    assert(t.contains(x) && has_folder(fs, x));
                    let m = choose|m: int| 0 <= m < t.len() && t[m] == x;
                    assert(ledger[m] == x);
                    assert(ledger.contains(x));
                }
            }
            if ledger.contains(x) && has_folder(fs, x) {
                let k = choose|k: int| 0 <= k < ledger.len() && ledger[k] == x;
                if k == ledger.len() - 1 {
                    assert(s2.last() == x);
                    assert(s2.contains(x));
                } else {
                    assert(t[k] == x);
                    assert(t.contains(x));
                    assert(r.contains(x));
                    let m = choose|m: int| 0 <= m < r.len() && r[m] == x;
                    assert(s2[m] == r[m]);
                    assert(s2.contains(x));
                }
            }
        }
        if no_dup(ledger) {
            assert(no_dup(t)) by {
                assert(forall|a: int| 0 <= a < t.len() ==> t[a] == ledger[a]);
            }
            assert forall|a: int, b: int| 0 <= a < b < s2.len() implies s2[a] != s2[b] by {
                if has_folder(fs, ledger.last()) && b == s2.len() - 1 {
                    assert(r[a] == s2[a]);
                    assert(r.contains(s2[a]));
                    assert(t.contains(s2[a]));
                    let m = choose|m: int| 0 <= m < t.len() && t[m] == s2[a];
                    assert(ledger[m] == s2[a]);
                    assert(ledger[m] != ledger.last());
                }
            }
        }
    }
}

/// Every folder named in the ledger given the world's identifier (unless
/// it already lists it): what unhiding does to the folder side.
pub open spec fn spec_unhide_folders(fs: Seq<FolderV>, ledger: Seq<Seq<char>>, id: Seq<char>) -> Seq<
    FolderV,
> {
    fs.map_values(
        |f: FolderV|
            if ledger.contains(f.folder_name) && !f.world_ids.contains(id) {
                folder_with_id(f, id)
            } else {
                f
            },
    )
}

/// The world's view after unhiding against a folder list: visible again,
/// its ledger pruned to the names that still exist.
pub open spec fn spec_unhidden_world(w: WorldV, fs: Seq<FolderV>) -> WorldV {
    WorldV {
        user_data: WorldUserV {
            hidden: false,
            folders: kept_names(w.user_data.folders, fs),
            ..w.user_data
        },
        ..w
    }
}

/// Hiding a world (clearing it from every member list, flag set, ledger
/// kept) leaves the store consistent.
pub proof fn lemma_hide_consistent(fs0: Seq<FolderV>, ws0: Seq<WorldV>, wi: int)
    requires
        consistent(fs0, ws0),
        0 <= wi < ws0.len(),
    ensures
        consistent(
            spec_hide_folders(fs0, ws0[wi].api_data.world_id),
            ws0.update(wi, world_with_hidden(ws0[wi], true)),
        ),
{
    let id = ws0[wi].api_data.world_id;
    let fs1 = spec_hide_folders(fs0, id);
    let ws1 = ws0.update(wi, world_with_hidden(ws0[wi], true));
    assert(forall|i: int| 0 <= i < fs0.len() ==> #[trigger] fs1[i] == folder_without_id(fs0[i], id));
    assert forall|i: int| 0 <= i < fs1.len() implies no_dup((#[trigger] fs1[i]).world_ids) by {
        lemma_without_props(fs0[i].world_ids, id);
    }
    assert forall|i: int, k: int|
        0 <= i < fs1.len() && 0 <= k < (#[trigger] fs1[i]).world_ids.len() implies has_world(
        ws1,
        #[trigger] fs1[i].world_ids[k],
    ) by {
        lemma_without_props(fs0[i].world_ids, id);
        let v = fs1[i].world_ids[k];
        assert(fs0[i].world_ids.contains(v));
        let m = choose|m: int| 0 <= m < fs0[i].world_ids.len() && fs0[i].world_ids[m] == v;
        assert(has_world(ws0, v));
        let j = choose|j: int| 0 <= j < ws0.len() && (#[trigger] ws0[j]).api_data.world_id == v;
        assert(ws1[j].api_data.world_id == v);
    }
    assert forall|i: int, j: int|
        0 <= i < fs1.len() && 0 <= j < ws1.len() && (#[trigger] ws1[j]).user_data.hidden implies !(
    #[trigger] fs1[i]).world_ids.contains(ws1[j].api_data.world_id) by {
        lemma_without_props(fs0[i].world_ids, id);
        let v = ws1[j].api_data.world_id;
        if j == wi {
            assert(v == id);
        } else {
            assert(ws1[j] == ws0[j]);
            if v != id {
                assert(fs1[i].world_ids.contains(v) == fs0[i].world_ids.contains(v));
            }
        }
    }
    assert forall|i: int, j: int|
        0 <= i < fs1.len() && 0 <= j < ws1.len() && !(#[trigger] ws1[j]).user_data.hidden implies ((
    #[trigger] fs1[i]).world_ids.contains(ws1[j].api_data.world_id)
        <==> ws1[j].user_data.folders.contains(fs1[i].folder_name)) by {
        assert(j != wi);
        assert(ws1[j] == ws0[j]);
        lemma_without_props(fs0[i].world_ids, id);
        let v = ws0[j].api_data.world_id;
        assert(v != id) by {
            if v == id {
                assert(world_ids_unique(ws0));
            }
        }
        assert(fs1[i].world_ids.contains(v) == fs0[i].world_ids.contains(v));
        assert(fs1[i].folder_name == fs0[i].folder_name);
    }
    assert forall|j: int, n: int|
        0 <= j < ws1.len() && !(#[trigger] ws1[j]).user_data.hidden && 0 <= n < ws1[j].user_data.folders.len()
        implies has_folder(fs1, #[trigger] ws1[j].user_data.folders[n]) by {
        assert(j != wi);
        assert(ws1[j] == ws0[j]);
        let v = ws0[j].user_data.folders[n];
        assert(has_folder(fs0, v));
        let i = choose|i: int| 0 <= i < fs0.len() && (#[trigger] fs0[i]).folder_name == v;
        assert(fs1[i].folder_name == v);
    }
}

/// Unhiding a world (flag cleared, ledger pruned to live folders, the
/// world re-added to each of them) leaves the store consistent.
pub proof fn lemma_unhide_consistent(fs0: Seq<FolderV>, ws0: Seq<WorldV>, wi: int)
    requires
        consistent(fs0, ws0),
        0 <= wi < ws0.len(),
    ensures
        consistent(
            spec_unhide_folders(fs0, ws0[wi].user_data.folders, ws0[wi].api_data.world_id),
            ws0.update(wi, spec_unhidden_world(ws0[wi], fs0)),
        ),
{
    let id = ws0[wi].api_data.world_id;
    let ledger = ws0[wi].user_data.folders;
    let fs1 = spec_unhide_folders(fs0, ledger, id);
    let ws1 = ws0.update(wi, spec_unhidden_world(ws0[wi], fs0));
    lemma_kept_props(ledger, fs0);
    assert(forall|i: int|
        0 <= i < fs0.len() ==> #[trigger] fs1[i] == (if ledger.contains(fs0[i].folder_name)
            && !fs0[i].world_ids.contains(id) {
            folder_with_id(fs0[i], id)
        } else {
            fs0[i]
        }));
    assert forall|i: int| 0 <= i < fs1.len() implies no_dup((#[trigger] fs1[i]).world_ids) by {
        if ledger.contains(fs0[i].folder_name) && !fs0[i].world_ids.contains(id) {
            let s = fs1[i].world_ids;
            assert(s == fs0[i].world_ids.push(id));
            assert forall|a: int, b: int| 0 <= a < b < s.len() implies s[a] != s[b] by {
                if b == s.len() - 1 {
                    assert(s[a] == fs0[i].world_ids[a]);
                    if s[a] == id {
                        assert(fs0[i].world_ids.contains(id));
                    }
                }
            }
        }
    }
    assert forall|i: int, k: int|
        0 <= i < fs1.len() && 0 <= k < (#[trigger] fs1[i]).world_ids.len() implies has_world(
        ws1,
        #[trigger] fs1[i].world_ids[k],
    ) by {
        let v = fs1[i].world_ids[k];
        if ledger.contains(fs0[i].folder_name) && !fs0[i].world_ids.contains(id) && k == fs1[i].world_ids.len() - 1 {
            assert(v == id);
            assert(ws1[wi].api_data.world_id == id);
        } else {
            assert(v == fs0[i].world_ids[k]);
            assert(has_world(ws0, v));
            let j = choose|j: int| 0 <= j < ws0.len() && (#[trigger] ws0[j]).api_data.world_id == v;
            assert(ws1[j].api_data.world_id == v);
        }
    }
    assert forall|i: int, j: int|
        0 <= i < fs1.len() && 0 <= j < ws1.len() && (#[trigger] ws1[j]).user_data.hidden implies !(
    #[trigger] fs1[i]).world_ids.contains(ws1[j].api_data.world_id) by {
        assert(j != wi);
        assert(ws1[j] == ws0[j]);
        let v = ws0[j].api_data.world_id;
        assert(v != id) by {
            if v == id {
                assert(world_ids_unique(ws0));
            }
        }
        if fs1[i].world_ids.contains(v) {
            let k = choose|k: int| 0 <= k < fs1[i].world_ids.len() && fs1[i].world_ids[k] == v;
            if ledger.contains(fs0[i].folder_name) && !fs0[i].world_ids.contains(id) && k == fs1[
                i
            ].world_ids.len() - 1 {
                assert(v == id);
            } else {
                assert(fs0[i].world_ids[k] == v);
                assert(fs0[i].world_ids.contains(v));
            }
        }
    }
    assert forall|i: int, j: int|
        0 <= i < fs1.len() && 0 <= j < ws1.len() && !(#[trigger] ws1[j]).user_data.hidden implies ((
    #[trigger] fs1[i]).world_ids.contains(ws1[j].api_data.world_id)
        <==> ws1[j].user_data.folders.contains(fs1[i].folder_name)) by {
        let iname = fs1[i].folder_name;
        assert(iname == fs0[i].folder_name);
        if j == wi {
            // The unhidden world: in the folder exactly when its kept
            // ledger names it.
            assert(ws1[wi].user_data.folders == kept_names(ledger, fs0));
            assert(ws1[wi].api_data.world_id == id);
            assert(has_folder(fs0, iname));
            assert(kept_names(ledger, fs0).contains(iname) == ledger.contains(iname));
            if ledger.contains(iname) {
                if fs0[i].world_ids.contains(id) {
                    assert(fs1[i] == fs0[i]);
                } else {
                    assert(fs1[i] == folder_with_id(fs0[i], id));
                    assert(fs1[i].world_ids.last() == id);
                }
                assert(fs1[i].world_ids.contains(id));
            } else {
                assert(fs1[i] == fs0[i]);
                assert(!fs0[i].world_ids.contains(id)) by {
                    if !ws0[wi].user_data.hidden {
                        // A visible non-member by the agreement clause.
                        assert(!ws0[wi].user_data.folders.contains(fs0[i].folder_name));
                    }
                }
            }
        } else {
            assert(ws1[j] == ws0[j]);
            let v = ws0[j].api_data.world_id;
            assert(v != id) by {
                if v == id {
                    assert(world_ids_unique(ws0));
                }
            }
            assert(fs1[i].world_ids.contains(v) == fs0[i].world_ids.contains(v)) by {
                if fs0[i].world_ids.contains(v) {
                    let k = choose|k: int|
                        0 <= k < fs0[i].world_ids.len() && fs0[i].world_ids[k] == v;
                    assert(fs1[i].world_ids[k] == v);
                }
                if fs1[i].world_ids.contains(v) {
                    let k = choose|k: int|
                        0 <= k < fs1[i].world_ids.len() && fs1[i].world_ids[k] == v;
                    if ledger.contains(fs0[i].folder_name) && !fs0[i].world_ids.contains(id) && k
                        == fs1[i].world_ids.len() - 1 {
                        assert(v == id);
                    } else {
                        assert(fs0[i].world_ids[k] == v);
                    }
                }
            }
        }
    }
    assert forall|j: int, n: int|
        0 <= j < ws1.len() && !(#[trigger] ws1[j]).user_data.hidden && 0 <= n < ws1[j].user_data.folders.len()
        implies has_folder(fs1, #[trigger] ws1[j].user_data.folders[n]) by {
        let v = ws1[j].user_data.folders[n];
        assert forall|i: int|
            0 <= i < fs0.len() && (#[trigger] fs0[i]).folder_name == v implies fs1[i].folder_name
            == v by {}
        if j == wi {
            assert(kept_names(ledger, fs0).contains(v)) by {
                assert(kept_names(ledger, fs0)[n] == v);
            }
            assert(has_folder(fs0, v));
            let i = choose|i: int| 0 <= i < fs0.len() && (#[trigger] fs0[i]).folder_name == v;
            assert(fs1[i].folder_name == v);
        } else {
            assert(ws1[j] == ws0[j]);
            assert(ws0[j].user_data.folders[n] == v);
            assert(has_folder(fs0, v));
            let i = choose|i: int| 0 <= i < fs0.len() && (#[trigger] fs0[i]).folder_name == v;
            assert(fs1[i].folder_name == v);
        }
    }
}

/// Hiding then unhiding a world restores its memberships exactly: the
/// folders listing it afterwards are those that listed it before, every
/// other world's memberships are untouched, and the world is visible
/// again with its ledger pruned to the folders that exist. This rests on
/// the ledger being kept through the hide while the live side is pruned.
pub proof fn lemma_hide_unhide_round_trip(fs0: Seq<FolderV>, ws0: Seq<WorldV>, wi: int)
    requires
        consistent(fs0, ws0),
        0 <= wi < ws0.len(),
        !ws0[wi].user_data.hidden,
    ensures
        ({
            let id = ws0[wi].api_data.world_id;
            let fs1 = spec_hide_folders(fs0, id);
            let ws1 = ws0.update(wi, world_with_hidden(ws0[wi], true));
            let fs2 = spec_unhide_folders(fs1, ws1[wi].user_data.folders, id);
            &&& forall|i: int|
                0 <= i < fs0.len() ==> ((#[trigger] fs2[i]).world_ids.contains(id) <==> fs0[i].world_ids.contains(
                    id,
                ))
            &&& forall|i: int, x: Seq<char>|
                0 <= i < fs0.len() && x != id ==> (#[trigger] fs2[i].world_ids.contains(x)
                    == #[trigger] fs0[i].world_ids.contains(x))
        }),
{
    let id = ws0[wi].api_data.world_id;
    let ledger = ws0[wi].user_data.folders;
    let fs1 = spec_hide_folders(fs0, id);
    let ws1 = ws0.update(wi, world_with_hidden(ws0[wi], true));
    let fs2 = spec_unhide_folders(fs1, ledger, id);
    assert(ws1[wi].user_data.folders == ledger);
    assert forall|i: int|
        0 <= i < fs0.len() implies ((#[trigger] fs2[i]).world_ids.contains(id)
        <==> fs0[i].world_ids.contains(id)) by {
        lemma_without_props(fs0[i].world_ids, id);
        assert(fs1[i] == folder_without_id(fs0[i], id));
        assert(!fs1[i].world_ids.contains(id));
        assert(fs1[i].folder_name == fs0[i].folder_name);
        if ledger.contains(fs0[i].folder_name) {
            assert(fs2[i] == folder_with_id(fs1[i], id));
            assert(fs2[i].world_ids.last() == id);
            assert(fs2[i].world_ids.contains(id));
            // The ledger named the folder, so the visible world was a
            // member before.
            assert(fs0[i].world_ids.contains(id));
        } else {
            assert(fs2[i] == fs1[i]);
            assert(!fs0[i].world_ids.contains(id));
        }
    }
    assert forall|i: int, x: Seq<char>|
        0 <= i < fs0.len() && x != id implies (#[trigger] fs2[i].world_ids.contains(x)
        == #[trigger] fs0[i].world_ids.contains(x)) by {
        lemma_without_props(fs0[i].world_ids, id);
        assert(fs1[i] == folder_without_id(fs0[i], id));
        assert(fs1[i].world_ids.contains(x) == fs0[i].world_ids.contains(x));
        if ledger.contains(fs0[i].folder_name) {
            assert(fs2[i] == folder_with_id(fs1[i], id));
            let s = fs1[i].world_ids;
            assert(fs2[i].world_ids == s.push(id));
            if s.contains(x) {
                let k = choose|k: int| 0 <= k < s.len() && s[k] == x;
                assert(s.push(id)[k] == x);
            }
            if s.push(id).contains(x) {
                let k = choose|k: int| 0 <= k < s.push(id).len() && s.push(id)[k] == x;
                assert(k < s.len());
                assert(s[k] == x);
            }
        } else {
            assert(fs2[i] == fs1[i]);
        }
    }
}

impl FolderManager {
    /// Hides a world: sets its hidden flag and removes it from every
    /// folder's member list. Its ledger is deliberately kept — it is the
    /// record unhiding replays. Fails only when the world does not exist.
    pub fn hide_world(
        world_id: String,
        folders: &mut Vec<FolderModel>,
        worlds: &mut Vec<WorldModel>,
    ) -> (r: Result<(), AppError>)
        requires
            consistent(fviews(old(folders)@), wviews(old(worlds)@)),
        ensures
            consistent(fviews(final(folders)@), wviews(final(worlds)@)),
            (r is Ok) <==> has_world(wviews(old(worlds)@), world_id@),
            r matches Err(e) ==> (e matches AppError::Entity(EntityError::WorldNotFound(n)) && n@
                == world_id@) && final(folders)@ == old(folders)@ && final(worlds)@ == old(worlds)@,
            r is Ok ==> fviews(final(folders)@) == spec_hide_folders(
                fviews(old(folders)@),
                world_id@,
            ),
            r is Ok ==> forall|wi: int|
                0 <= wi < wviews(old(worlds)@).len() && (#[trigger] wviews(
                    old(worlds)@,
                )[wi]).api_data.world_id == world_id@ ==> wviews(final(worlds)@) == wviews(
                    old(worlds)@,
                ).update(wi, world_with_hidden(wviews(old(worlds)@)[wi], true)),
    {
        let wi = match find_world(worlds, &world_id) {
            Some(i) => i,
            None => {
                return Err(AppError::Entity(EntityError::WorldNotFound(world_id)));
            },
        };
        proof {
            assert(wviews(worlds@)[wi as int] == worlds@[wi as int]@);
            lemma_unique_world_position(wviews(worlds@), wi as int);
            lemma_hide_consistent(fviews(folders@), wviews(worlds@), wi as int);
        }
        let ghost ws0 = wviews(worlds@);
        let ghost fs0 = fviews(folders@);
        let mut w = worlds.remove(wi);
        w.user_data.hidden = true;
        worlds.insert(wi, w);
        proof {
            assert(worlds@ =~= old(worlds)@.update(wi as int, worlds@[wi as int]));
            assert forall|k: int| 0 <= k < wviews(worlds@).len() implies wviews(worlds@)[k]
                == ws0.update(wi as int, world_with_hidden(ws0[wi as int], true))[k] by {
                assert(wviews(worlds@)[k] == worlds@[k]@);
                assert(ws0[k] == old(worlds)@[k]@);
                if k == wi as int {
                    assert(worlds@[k]@ =~~= world_with_hidden(ws0[wi as int], true));
                }
            }
            assert(wviews(worlds@) =~= ws0.update(
                wi as int,
                world_with_hidden(ws0[wi as int], true),
            ));
        }
        let mut i: usize = 0;
        while i < folders.len()
            invariant
                0 <= i <= folders@.len(),
                folders@.len() == fs0.len(),
                forall|k: int|
                    0 <= k < i ==> #[trigger] fviews(folders@)[k] == folder_without_id(
                        fs0[k],
                        world_id@,
                    ),
                forall|k: int| i <= k < fs0.len() ==> #[trigger] fviews(folders@)[k] == fs0[k],
            decreases folders@.len() - i,
        {
            let ghost pre = fviews(folders@);
            let new_ids = vec_without(&folders[i].world_ids, &world_id);
            folder_set_ids(folders, i, new_ids);
            proof {
                assert forall|k: int| 0 <= k < i + 1 implies #[trigger] fviews(folders@)[k]
                    == folder_without_id(fs0[k], world_id@) by {
                    if k < i as int {
                        assert(fviews(folders@)[k] == pre[k]);
                    } else {
                        assert(fviews(folders@)[k] =~~= folder_without_id(fs0[k], world_id@));
                    }
                }
                assert forall|k: int| i + 1 <= k < fs0.len() implies #[trigger] fviews(
                    folders@,
                )[k] == fs0[k] by {
                    assert(fviews(folders@)[k] == pre[k]);
                }
            }
            i = i + 1;
        }
        proof {
            assert forall|k: int| 0 <= k < fs0.len() implies #[trigger] fviews(folders@)[k]
                == spec_hide_folders(fs0, world_id@)[k] by {}
            assert(fviews(folders@) =~= spec_hide_folders(fs0, world_id@));
        }
        Ok(())
    }

    /// Unhides a world: clears its hidden flag and puts it back into
    /// every folder its ledger names. Ledger names whose folder has
    /// disappeared in the meantime are dropped from the ledger, which
    /// thereafter again agrees exactly with the live memberships. Fails
    /// only when the world does not exist.
    pub fn unhide_world(
        world_id: String,
        folders: &mut Vec<FolderModel>,
        worlds: &mut Vec<WorldModel>,
    ) -> (r: Result<(), AppError>)
        requires
            consistent(fviews(old(folders)@), wviews(old(worlds)@)),
        ensures
            consistent(fviews(final(folders)@), wviews(final(worlds)@)),
            (r is Ok) <==> has_world(wviews(old(worlds)@), world_id@),
            r matches Err(e) ==> (e matches AppError::Entity(EntityError::WorldNotFound(n)) && n@
                == world_id@) && final(folders)@ == old(folders)@ && final(worlds)@ == old(worlds)@,
            r is Ok ==> forall|wi: int|
                0 <= wi < wviews(old(worlds)@).len() && (#[trigger] wviews(
                    old(worlds)@,
                )[wi]).api_data.world_id == world_id@ ==> {
                    let fs0 = fviews(old(folders)@);
                    let ws0 = wviews(old(worlds)@);
                    fviews(final(folders)@) == spec_unhide_folders(
                        fs0,
                        ws0[wi].user_data.folders,
                        world_id@,
                    ) && wviews(final(worlds)@) == ws0.update(wi, spec_unhidden_world(ws0[wi], fs0))
                },
    {
        let wi = match find_world(worlds, &world_id) {
            Some(i) => i,
            None => {
                return Err(AppError::Entity(EntityError::WorldNotFound(world_id)));
            },
        };
        let ghost fs0 = fviews(folders@);
        let ghost ws0 = wviews(worlds@);
        proof {
            assert(ws0[wi as int] == worlds@[wi as int]@);
            lemma_unique_world_position(ws0, wi as int);
            lemma_kept_props(ws0[wi as int].user_data.folders, fs0);
        }
        // Prune the ledger to the folders that still exist.
        let old_ledger = &worlds[wi].user_data.folders;
        let mut kept: Vec<String> = Vec::new();
        let mut n: usize = 0;
        proof {
            let l = ws0[wi as int].user_data.folders;
            assert(l.subrange(0, 0) =~= Seq::<Seq<char>>::empty());
            assert(kept.deep_view() =~= kept_names(l.subrange(0, 0), fs0));
        }
        while n < old_ledger.len()
            invariant
                0 <= n <= old_ledger@.len(),
                old_ledger@ == old(worlds)@[wi as int].user_data.folders@,
                old_ledger@.len() == ws0[wi as int].user_data.folders.len(),
                fs0 == fviews(folders@),
                old_ledger.deep_view() == ws0[wi as int].user_data.folders,
                kept.deep_view() == kept_names(
                    ws0[wi as int].user_data.folders.subrange(0, n as int),
                    fs0,
                ),
            decreases old_ledger@.len() - n,
        {
            proof {
                let l = ws0[wi as int].user_data.folders;
                assert(l.subrange(0, n + 1).drop_last() =~= l.subrange(0, n as int));
                assert(l.subrange(0, n + 1).last() == l[n as int]);
                assert(l[n as int] == old_ledger@[n as int]@);
            }
            let exists_folder = find_folder(folders, &old_ledger[n]);
            if exists_folder.is_some() {
                kept.push(old_ledger[n].clone());
                proof {
                    assert(vstd::pervasive::cloned::<String>(
                        old_ledger@[n as int],
                        kept@[kept@.len() - 1],
                    ));
                    let g = exists_folder->Some_0;
                    assert(fviews(folders@)[g as int].folder_name == old_ledger@[n as int]@);
                    assert(has_folder(fs0, old_ledger@[n as int]@));
                    assert(kept.deep_view() =~= kept_names(
                        ws0[wi as int].user_data.folders.subrange(0, n + 1),
                        fs0,
                    ));
                }
            } else {
                proof {
                    assert(!has_folder(fs0, old_ledger@[n as int]@));
                }
            }
            n = n + 1;
        }
        proof {
            let l = ws0[wi as int].user_data.folders;
            assert(l.subrange(0, l.len() as int) =~= l);
        }
        let ledger_copy = crate::text::clone_string_vec(&kept);
        proof {
            assert forall|k: int| 0 <= k < ledger_copy.deep_view().len() implies ledger_copy.deep_view()[k]
                == kept.deep_view()[k] by {
                assert(ledger_copy.deep_view()[k] == ledger_copy@[k]@);
                assert(kept.deep_view()[k] == kept@[k]@);
            }
            assert(ledger_copy.deep_view() =~= kept.deep_view());
        }
        // The world becomes visible with the pruned ledger.
        let mut w = worlds.remove(wi);
        w.user_data.hidden = false;
        w.user_data.folders = kept;
        worlds.insert(wi, w);
        proof {
            assert(worlds@ =~= old(worlds)@.update(wi as int, worlds@[wi as int]));
            assert forall|k: int| 0 <= k < wviews(worlds@).len() implies wviews(worlds@)[k]
                == ws0.update(wi as int, spec_unhidden_world(ws0[wi as int], fs0))[k] by {
                assert(wviews(worlds@)[k] == worlds@[k]@);
                assert(ws0[k] == old(worlds)@[k]@);
                if k == wi as int {
                    assert(worlds@[k]@ =~~= spec_unhidden_world(ws0[wi as int], fs0));
                }
            }
            assert(wviews(worlds@) =~= ws0.update(
                wi as int,
                spec_unhidden_world(ws0[wi as int], fs0),
            ));
        }
        // Re-add the world to every folder the kept ledger names.
        let ghost ledger0 = ws0[wi as int].user_data.folders;
        let mut i: usize = 0;
        while i < folders.len()
            invariant
                0 <= i <= folders@.len(),
                folders@.len() == fs0.len(),
                ledger_copy.deep_view() == kept_names(ledger0, fs0),
                world_id@ == ws0[wi as int].api_data.world_id,
                forall|k: int|
                    0 <= k < i ==> #[trigger] fviews(folders@)[k] == (if ledger0.contains(
                        fs0[k].folder_name,
                    ) && !fs0[k].world_ids.contains(world_id@) {
                        folder_with_id(fs0[k], world_id@)
                    } else {
                        fs0[k]
                    }),
                forall|k: int| i <= k < fs0.len() ==> #[trigger] fviews(folders@)[k] == fs0[k],
            decreases folders@.len() - i,
        {
            let ghost pre = fviews(folders@);
            let in_ledger = crate::text::vec_contains_string(&ledger_copy, &folders[i].folder_name);
            proof {
                crate::entities::lemma_contains_string_deep_view(
                    ledger_copy,
                    folders@[i as int].folder_name@,
                );
                lemma_kept_props(ledger0, fs0);
                assert(fviews(folders@)[i as int] == folders@[i as int]@);
                assert(fs0[i as int].folder_name == folders@[i as int].folder_name@);
                assert(has_folder(fs0, fs0[i as int].folder_name));
                assert(in_ledger == ledger0.contains(fs0[i as int].folder_name));
            }
            let has_id = crate::text::vec_contains_string(&folders[i].world_ids, &world_id);
            proof {
                crate::entities::lemma_contains_string_deep_view(
                    folders@[i as int].world_ids,
                    world_id@,
                );
                assert(has_id == fs0[i as int].world_ids.contains(world_id@));
            }
            if in_ledger && !has_id {
                folder_push_id(folders, i, world_id.clone());
            }
            proof {
                assert forall|k: int| 0 <= k < i + 1 implies #[trigger] fviews(folders@)[k] == (
                if ledger0.contains(fs0[k].folder_name) && !fs0[k].world_ids.contains(world_id@) {
                    folder_with_id(fs0[k], world_id@)
                } else {
                    fs0[k]
                }) by {
                    if k < i as int {
                        assert(fviews(folders@)[k] == pre[k]);
                    }
                }
                assert forall|k: int| i + 1 <= k < fs0.len() implies #[trigger] fviews(
                    folders@,
                )[k] == fs0[k] by {
                    assert(fviews(folders@)[k] == pre[k]);
                }
            }
            i = i + 1;
        }
        proof {
            assert forall|k: int| 0 <= k < fs0.len() implies #[trigger] fviews(folders@)[k]
                == spec_unhide_folders(fs0, ledger0, world_id@)[k] by {}
            assert(fviews(folders@) =~= spec_unhide_folders(fs0, ledger0, world_id@));
            lemma_unhide_consistent(fs0, ws0, wi as int);
        }
        Ok(())
    }
}

/// The name a folder gets on the `k`-th probe of the collision policy:
/// the base, a space, and the number in parentheses.
pub open spec fn numbered_name(base: Seq<char>, k: nat) -> Seq<char> {
    base + seq![' ', '('] + crate::text::dec_digits(k) + seq![')']
}

/// How a numbered name decomposes, position by position.
proof fn lemma_numbered_name_parts(base: Seq<char>, k: nat)
    ensures
        numbered_name(base, k).len() == base.len() + 3 + crate::text::dec_digits(k).len(),
        crate::text::dec_digits(k).len() >= 1,
        forall|i: int| 0 <= i < base.len() ==> #[trigger] numbered_name(base, k)[i] == base[i],
        numbered_name(base, k)[base.len() as int] == ' ',
        numbered_name(base, k)[base.len() as int + 1] == '(',
        forall|j: int|
            0 <= j < crate::text::dec_digits(k).len() ==> #[trigger] numbered_name(base, k)[
                base.len() as int + 2 + j
            ] == crate::text::dec_digits(k)[j],
        numbered_name(base, k).last() == ')',
{
    crate::text::lemma_dec_digits(k);
}

/// Builds the `k`-th probe name from its base.
fn make_numbered(base: &[char], m: u128) -> (r: String)
    ensures
        r@ == numbered_name(base@, m as nat),
{
    let mut v: Vec<char> = Vec::new();
    let mut i: usize = 0;
    while i < base.len()
        invariant
            0 <= i <= base@.len(),
            v@ == base@.subrange(0, i as int),
        decreases base@.len() - i,
    {
        v.push(base[i]);
        proof {
            assert(v@ =~= base@.subrange(0, i + 1));
        }
        i = i + 1;
    }
    proof {
        assert(v@ =~= base@);
    }
    v.push(' ');
    v.push('(');
    let mut digits = crate::text::u128_to_dec_chars(m);
    v.append(&mut digits);
    v.push(')');
    proof {
        assert(v@ =~= numbered_name(base@, m as nat));
    }
    crate::text::string_from_chars(v.as_slice())
}

/// Reads a name as a numbered probe of the given base: the number where
/// the name has exactly that form. Whatever it returns, a name that *is*
/// `numbered_name(base, k)` makes it return `k`.
fn numbered_value(fc: &[char], base: &[char]) -> (r: Option<u128>)
    ensures
        forall|k: nat|
            k <= u128::MAX && fc@ == #[trigger] numbered_name(base@, k) ==> r == Some(k as u128),
{
    let bl = base.len();
    if fc.len() <= bl || fc.len() - bl < 4 {
        proof {
            assert forall|k: nat| k <= u128::MAX && fc@ == #[trigger] numbered_name(base@, k)
                implies false by {
                lemma_numbered_name_parts(base@, k);
            }
        }
        return None;
    }
    let mut i: usize = 0;
    while i < bl
        invariant
            0 <= i <= bl,
            bl == base@.len(),
            fc@.len() >= bl + 4,
            forall|a: int| 0 <= a < i ==> fc@[a] == base@[a],
        decreases bl - i,
    {
        if fc[i] != base[i] {
            proof {
                assert forall|k: nat| k <= u128::MAX && fc@ == #[trigger] numbered_name(base@, k)
                    implies false by {
                    lemma_numbered_name_parts(base@, k);
                }
            }
            return None;
        }
        i = i + 1;
    }
    if fc[bl] != ' ' || fc[bl + 1] != '(' || fc[fc.len() - 1] != ')' {
        proof {
            assert forall|k: nat| k <= u128::MAX && fc@ == #[trigger] numbered_name(base@, k)
                implies false by {
                lemma_numbered_name_parts(base@, k);
            }
        }
        return None;
    }
    let digits = crate::text::subvec(fc, bl + 2, fc.len() - 1);
    let parsed = crate::text::parse_digits_u128(digits.as_slice());
    proof {
        assert forall|k: nat| k <= u128::MAX && fc@ == #[trigger] numbered_name(base@, k) implies parsed
            == Some(k as u128) by {
            lemma_numbered_name_parts(base@, k);
            crate::text::lemma_dec_digits(k);
            let d = crate::text::dec_digits(k);
            assert(fc@.len() == bl + 3 + d.len());
            assert forall|j: int| 0 <= j < d.len() implies digits@[j] == d[j] by {
                assert(digits@[j] == fc@[bl + 2 + j]);
            }
            assert(digits@ =~= d);
            assert(crate::text::spec_parse_digits(digits@) == Some(k));
        }
    }
    parsed
}

/// Whether position `i` starts a " (" pair in the text.
pub open spec fn is_paren_split(s: Seq<char>, i: int) -> bool {
    0 <= i && i + 1 < s.len() && s[i] == ' ' && s[i + 1] == '('
}

/// The start of the last " (" pair among the first `k` positions, if any.
pub open spec fn last_split_upto(s: Seq<char>, k: nat) -> Option<int>
    decreases k,
{
    if k == 0 {
        None
    } else if is_paren_split(s, k - 1) {
        Some(k as int - 1)
    } else {
        last_split_upto(s, (k - 1) as nat)
    }
}

/// The start of the last " (" pair in the text, if any.
pub open spec fn last_split(s: Seq<char>) -> Option<int> {
    if s.len() >= 1 {
        last_split_upto(s, (s.len() - 1) as nat)
    } else {
        None
    }
}

/// What the last-split scan finds: the rightmost " (" pair below `k`.
proof fn lemma_last_split_upto(s: Seq<char>, k: nat)
    ensures
        last_split_upto(s, k) matches Some(q) ==> is_paren_split(s, q) && q < k && (forall|j: int|
            q < j < k ==> !is_paren_split(s, j)),
        last_split_upto(s, k) is None ==> forall|j: int| 0 <= j < k ==> !is_paren_split(s, j),
    decreases k,
{
    if k > 0 && !is_paren_split(s, k - 1) {
        lemma_last_split_upto(s, (k - 1) as nat);
    }
}

/// A position that is a " (" pair with none to its right is the last one.
proof fn lemma_last_split_upto_hit(s: Seq<char>, k: nat, q: int)
    requires
        is_paren_split(s, q),
        q < k,
        forall|j: int| q < j < k ==> !is_paren_split(s, j),
    ensures
        last_split_upto(s, k) == Some(q),
    decreases k,
{
    if k > 0 && !is_paren_split(s, k - 1) {
        lemma_last_split_upto_hit(s, (k - 1) as nat, q);
    }
}

/// What the numeric suffix of a requested name parses to: the digits with
/// an optional leading plus sign, as `str::parse::<u32>` reads them.
pub open spec fn parse_plus_digits(d: Seq<char>) -> Option<nat> {
    if d.len() >= 2 && d[0] == '+' {
        crate::text::spec_parse_digits(d.skip(1))
    } else {
        crate::text::spec_parse_digits(d)
    }
}

/// Whether a requested name carries a parenthesized suffix: it holds a
/// " (" pair and closes with `)`.
pub open spec fn splits_numbered(s: Seq<char>) -> bool {
    last_split(s) is Some && s.len() >= 1 && s.last() == ')' && last_split(s)->Some_0 + 2 <= s.len()
        - 1
}

/// The probe base of a requested name: the text before the last " (" pair
/// where the name carries a parenthesized suffix, else the whole name.
/// The base is stripped even where the suffix fails to read as a number,
/// matching how the policy treats such names.
pub open spec fn requested_base(s: Seq<char>) -> Seq<char> {
    if splits_numbered(s) {
        s.subrange(0, last_split(s)->Some_0)
    } else {
        s
    }
}

/// The number probing counts from: the parenthesized suffix where it
/// reads as a `u32`, else one.
pub open spec fn requested_count(s: Seq<char>) -> nat {
    if splits_numbered(s) {
        match parse_plus_digits(s.subrange(last_split(s)->Some_0 + 2, s.len() - 1)) {
            Some(v) => if v <= u32::MAX {
                v
            } else {
                1
            },
            None => 1,
        }
    } else {
        1
    }
}

/// What the collision policy assigns: the request itself when no folder
/// bears it, else the first free probe `"<base> (<k>)"`, counting up from
/// the number the request carries.
pub open spec fn assigned_by_policy(fs: Seq<FolderV>, requested: Seq<char>, out: Seq<char>) -> bool {
    if !has_folder(fs, requested) {
        out == requested
    } else {
        exists|k: nat|
            requested_count(requested) <= k && out == #[trigger] numbered_name(
                requested_base(requested),
                k,
            ) && !has_folder(fs, out) && (forall|j: nat|
                requested_count(requested) <= j < k ==> has_folder(
                    fs,
                    #[trigger] numbered_name(requested_base(requested), j),
                ))
    }
}

/// Splits a requested folder name into the base and starting number of
/// the probe sequence; see [`requested_base`] and [`requested_count`].
fn split_requested_name(cs: &Vec<char>) -> (r: (Vec<char>, u128))
    ensures
        r.0@ == requested_base(cs@),
        r.1 as nat == requested_count(cs@),
{
    let n = cs.len();
    // Find the last " (" pair, scanning from the right.
    let mut split: Option<usize> = None;
    if n >= 2 {
        let mut p: usize = n - 1;
        while p >= 1 && split.is_none()
            invariant
                n == cs@.len(),
                n >= 2,
                0 <= p <= n - 1,
                split is None ==> forall|j: int| p - 1 < j < n - 1 ==> !is_paren_split(cs@, j),
                split matches Some(q) ==> is_paren_split(cs@, q as int) && (forall|j: int|
                    q < j < n - 1 ==> !is_paren_split(cs@, j)),
            decreases p,
        {
            if cs[p - 1] == ' ' && cs[p] == '(' {
                split = Some(p - 1);
            }
            p = p - 1;
        }
    }
    proof {
        match split {
            Some(q) => {
                lemma_last_split_upto_hit(cs@, (n - 1) as nat, q as int);
                assert(last_split(cs@) == Some(q as int));
            },
            None => {
                assert(last_split(cs@) is None) by {
                    if n >= 1 {
                        lemma_last_split_upto(cs@, (n - 1) as nat);
                        if last_split(cs@) is Some {
                            let q = last_split(cs@)->Some_0;
                            assert(is_paren_split(cs@, q));
                            assert(n >= 2);
                        }
                    }
                }
            },
        }
    }
    match split {
        Some(idx) => {
            if cs[n - 1] == ')' && idx + 2 <= n - 1 {
                let digits = crate::text::subvec(cs.as_slice(), idx + 2, n - 1);
                // str::parse::<u32> takes an optional leading plus sign.
                let unsigned = if digits.len() >= 2 && digits[0] == '+' {
                    proof {
                        assert(digits@.subrange(1, digits@.len() as int) =~= digits@.skip(1));
                    }
                    crate::text::subvec(digits.as_slice(), 1, digits.len())
                } else {
                    digits
                };
                let count: u128 = match crate::text::parse_digits_u128(unsigned.as_slice()) {
                    Some(v) => if v <= 0xffffffff {
                        v
                    } else {
                        1
                    },
                    None => 1,
                };
                proof {
                    assert(splits_numbered(cs@));
                    assert(count as nat == requested_count(cs@));
                }
                (crate::text::subvec(cs.as_slice(), 0, idx), count)
            } else {
                proof {
                    assert(!splits_numbered(cs@));
                }
                (crate::text::chars_of_str(crate::text::string_from_chars(cs.as_slice()).as_str()), 1)
            }
        },
        None => {
            proof {
                assert(!splits_numbered(cs@));
            }
            (crate::text::chars_of_str(crate::text::string_from_chars(cs.as_slice()).as_str()), 1)
        },
    }
}

impl FolderManager {
    /// A free name for a new folder: the requested name itself where no
    /// folder bears it, else the first free probe `"<base> (<n>)"`,
    /// counting up from the number the requested name already carries (or
    /// from one); see [`assigned_by_policy`]. The error is reserved for
    /// the degenerate store in which every probe the numbering can reach
    /// is already taken; it never arises from a name a user could type.
    pub fn increment_folder_name(
        name: String,
        folders: &Vec<FolderModel>,
    ) -> (r: Result<String, AppError>)
        ensures
            r matches Ok(out) ==> !has_folder(fviews(folders@), out@),
            r matches Ok(out) ==> (!has_folder(fviews(folders@), name@) ==> out@ == name@),
            r matches Ok(out) ==> assigned_by_policy(fviews(folders@), name@, out@),
            !has_folder(fviews(folders@), name@) ==> r is Ok,
            r matches Err(e) ==> e matches AppError::Entity(EntityError::DuplicateFolder(_)),
            r is Err ==> has_folder(fviews(folders@), name@) && (forall|j: nat|
                requested_count(name@) <= j <= u128::MAX ==> has_folder(
                    fviews(folders@),
                    #[trigger] numbered_name(requested_base(name@), j),
                )),
    {
        match find_folder(folders, &name) {
            None => {
                proof {
                    assert(assigned_by_policy(fviews(folders@), name@, name@));
                }
                return Ok(name);
            },
            Some(taken_at) => {
                proof {
                    assert(fviews(folders@)[taken_at as int] == folders@[taken_at as int]@);
                    assert(has_folder(fviews(folders@), name@));
                }
            },
        }
        let cs = crate::text::chars_of_str(name.as_str());
        let (base, count0) = split_requested_name(&cs);
        proof {
            assert(base@ == requested_base(name@));
            assert(count0 as nat == requested_count(name@));
        }
        // The largest number any folder already carries as a probe of
        // this base (numbers at the very top of the range are handled by
        // the degenerate error below).
        let mut m_max: u128 = 0;
        let mut i: usize = 0;
        while i < folders.len()
            invariant
                0 <= i <= folders@.len(),
                m_max < u128::MAX,
                forall|j: int, k: nat|
                    #![trigger fviews(folders@)[j], numbered_name(base@, k)]
                    0 <= j < i && k <= u128::MAX && fviews(folders@)[j].folder_name
                        == numbered_name(base@, k) ==> (k <= m_max || k == u128::MAX),
            decreases folders@.len() - i,
        {
            let fc = crate::text::chars_of_str(folders[i].folder_name.as_str());
            let value = numbered_value(fc.as_slice(), base.as_slice());
            proof {
                assert(fviews(folders@)[i as int] == folders@[i as int]@);
                assert(fc@ == fviews(folders@)[i as int].folder_name);
            }
            match value {
                Some(v) => {
                    if v > m_max && v < u128::MAX {
                        m_max = v;
                    }
                },
                None => {},
            }
            i = i + 1;
        }
        let mut n: u128 = count0;
        loop
            invariant
                m_max < u128::MAX,
                has_folder(fviews(folders@), name@),
                base@ == requested_base(name@),
                count0 as nat == requested_count(name@),
                count0 <= n,
                forall|j: nat|
                    count0 as nat <= j < n as nat ==> has_folder(
                        fviews(folders@),
                        #[trigger] numbered_name(base@, j),
                    ),
                forall|j: int, k: nat|
                    #![trigger fviews(folders@)[j], numbered_name(base@, k)]
                    0 <= j < folders@.len() && k <= u128::MAX && fviews(folders@)[j].folder_name
                        == numbered_name(base@, k) ==> (k <= m_max || k == u128::MAX),
            decreases m_max + 2 - n,
        {
            let cand = make_numbered(base.as_slice(), n);
            match find_folder(folders, &cand) {
                None => {
                    proof {
                        assert(assigned_by_policy(fviews(folders@), name@, cand@)) by {
                            let k = n as nat;
                            assert(requested_count(name@) <= k && cand@ == numbered_name(
                                requested_base(name@),
                                k,
                            ) && !has_folder(fviews(folders@), cand@) && (forall|j: nat|
                                requested_count(name@) <= j < k ==> has_folder(
                                    fviews(folders@),
                                    #[trigger] numbered_name(requested_base(name@), j),
                                )));
                        }
                    }
                    return Ok(cand);
                },
                Some(g) => {
                    proof {
                        assert(fviews(folders@)[g as int] == folders@[g as int]@);
                        assert(fviews(folders@)[g as int].folder_name == numbered_name(
                            base@,
                            n as nat,
                        ));
                        assert(has_folder(fviews(folders@), numbered_name(base@, n as nat)));
                        assert(n as nat <= m_max || n == u128::MAX);
                    }
                    if n == 0xffffffffffffffffffffffffffffffff {
                        proof {
                            assert forall|j: nat|
                                requested_count(name@) <= j <= u128::MAX implies has_folder(
                                fviews(folders@),
                                #[trigger] numbered_name(requested_base(name@), j),
                            ) by {
                                if j < n as nat {
                                } else {
                                    assert(j == n as nat);
                                }
                            }
                        }
                        return Err(AppError::Entity(EntityError::DuplicateFolder(cand)));
                    }
                    n = n + 1;
                },
            }
        }
    }

    /// Creates a folder under a free name derived from the requested one
    /// by the collision policy (see [`Self::increment_folder_name`]) and
    /// returns the name actually assigned. A consistent store stays
    /// consistent, whatever the worlds are.
    pub fn create_folder(
        name: String,
        folders: &mut Vec<FolderModel>,
    ) -> (r: Result<String, AppError>)
        ensures
            r matches Ok(out) ==> !has_folder(fviews(old(folders)@), out@) && fviews(
                final(folders)@,
            ) == fviews(old(folders)@).push(
                (FolderV {
                    folder_name: out@,
                    world_ids: Seq::<Seq<char>>::empty(),
                    share: None,
                    color: None,
                }),
            ),
            r matches Ok(out) ==> (!has_folder(fviews(old(folders)@), name@) ==> out@ == name@),
            r matches Ok(out) ==> assigned_by_policy(fviews(old(folders)@), name@, out@),
            !has_folder(fviews(old(folders)@), name@) ==> r is Ok,
            r is Err ==> final(folders)@ == old(folders)@ && has_folder(
                fviews(old(folders)@),
                name@,
            ) && (forall|j: nat|
                requested_count(name@) <= j <= u128::MAX ==> has_folder(
                    fviews(old(folders)@),
                    #[trigger] numbered_name(requested_base(name@), j),
                )),
            forall|ws: Seq<WorldV>|
                #[trigger] consistent(fviews(old(folders)@), ws) && r is Ok ==> consistent(
                    fviews(final(folders)@),
                    ws,
                ),
    {
        let new_name = match Self::increment_folder_name(name, folders) {
            Ok(n) => n,
            Err(e) => {
                return Err(e);
            },
        };
        let ghost fs0 = fviews(folders@);
        let out = new_name.clone();
        folders.push(FolderModel::new(new_name));
        proof {
            assert(out@ == folders@.last().folder_name@);
            assert forall|k: int| 0 <= k < fviews(folders@).len() implies fviews(folders@)[k]
                == fs0.push(
                (FolderV {
                    folder_name: out@,
                    world_ids: Seq::<Seq<char>>::empty(),
                    share: None,
                    color: None,
                }),
            )[k] by {
                assert(fviews(folders@)[k] == folders@[k]@);
                if k < fs0.len() {
                    assert(fs0[k] == old(folders)@[k]@);
                } else {
                    assert(folders@[k]@ =~~= (FolderV {
                        folder_name: out@,
                        world_ids: Seq::<Seq<char>>::empty(),
                        share: None,
                        color: None,
                    }));
                }
            }
            assert(fviews(folders@) =~= fs0.push(
                (FolderV {
                    folder_name: out@,
                    world_ids: Seq::<Seq<char>>::empty(),
                    share: None,
                    color: None,
                }),
            ));
            assert forall|ws: Seq<WorldV>| #[trigger] consistent(fs0, ws) implies consistent(
                fviews(folders@),
                ws,
            ) by {
                lemma_create_consistent(fs0, ws, out@);
            }
        }
        Ok(out)
    }
}

/// Appending an empty folder under a fresh name keeps the store
/// consistent: nothing lists it, and no visible world's ledger can name
/// it, since visible ledgers only name folders that exist.
proof fn lemma_create_consistent(fs0: Seq<FolderV>, ws: Seq<WorldV>, name: Seq<char>)
    requires
        consistent(fs0, ws),
        !has_folder(fs0, name),
    ensures
        consistent(
            fs0.push(
                (FolderV {
                    folder_name: name,
                    world_ids: Seq::<Seq<char>>::empty(),
                    share: None,
                    color: None,
                }),
            ),
            ws,
        ),
{
    let f = FolderV {
        folder_name: name,
        world_ids: Seq::<Seq<char>>::empty(),
        share: None,
        color: None,
    };
    let fs1 = fs0.push(f);
    assert(forall|i: int| 0 <= i < fs0.len() ==> #[trigger] fs1[i] == fs0[i]);
    assert(fs1.last() == f);
    assert forall|i: int, j: int|
        0 <= i < j < fs1.len() implies (#[trigger] fs1[i]).folder_name != (
    #[trigger] fs1[j]).folder_name by {
        if j == fs1.len() - 1 {
            if fs1[i].folder_name == name {
                assert(has_folder(fs0, name));
            }
        }
    }
    assert forall|i: int, k: int|
        0 <= i < fs1.len() && 0 <= k < (#[trigger] fs1[i]).world_ids.len() implies has_world(
        ws,
        #[trigger] fs1[i].world_ids[k],
    ) by {
        assert(i < fs0.len());
    }
    assert forall|i: int, j: int|
        0 <= i < fs1.len() && 0 <= j < ws.len() && !(#[trigger] ws[j]).user_data.hidden implies ((
    #[trigger] fs1[i]).world_ids.contains(ws[j].api_data.world_id)
        <==> ws[j].user_data.folders.contains(fs1[i].folder_name)) by {
        if i == fs1.len() - 1 {
            assert(!fs1[i].world_ids.contains(ws[j].api_data.world_id));
            if ws[j].user_data.folders.contains(name) {
                let n = choose|n: int|
                    0 <= n < ws[j].user_data.folders.len() && ws[j].user_data.folders[n] == name;
                assert(has_folder(fs0, name));
            }
        }
    }
    assert forall|j: int, n: int|
        0 <= j < ws.len() && !(#[trigger] ws[j]).user_data.hidden && 0 <= n < ws[j].user_data.folders.len()
        implies has_folder(fs1, #[trigger] ws[j].user_data.folders[n]) by {
        let v = ws[j].user_data.folders[n];
        assert(has_folder(fs0, v));
        let i = choose|i: int| 0 <= i < fs0.len() && (#[trigger] fs0[i]).folder_name == v;
        assert(fs1[i].folder_name == v);
    }
}

/// Every world's ledger with one folder name dropped where the world was
/// a member of that folder: what deleting a folder does to the world side.
pub open spec fn spec_delete_folder_worlds(
    ws: Seq<WorldV>,
    member_ids: Seq<Seq<char>>,
    name: Seq<char>,
) -> Seq<WorldV> {
    ws.map_values(
        |w: WorldV|
            if member_ids.contains(w.api_data.world_id) {
                world_without_ledger_name(w, name)
            } else {
                w
            },
    )
}

/// Removing a folder and striking its name from every member's ledger
/// keeps the store consistent.
proof fn lemma_delete_folder_consistent(fs0: Seq<FolderV>, ws0: Seq<WorldV>, fi: int)
    requires
        consistent(fs0, ws0),
        0 <= fi < fs0.len(),
    ensures
        consistent(
            fs0.remove(fi),
            spec_delete_folder_worlds(ws0, fs0[fi].world_ids, fs0[fi].folder_name),
        ),
{
    let name = fs0[fi].folder_name;
    let ids = fs0[fi].world_ids;
    let fs1 = fs0.remove(fi);
    let ws1 = spec_delete_folder_worlds(ws0, ids, name);
    assert(forall|i: int|
        0 <= i < fs1.len() ==> #[trigger] fs1[i] == (if i < fi {
            fs0[i]
        } else {
            fs0[i + 1]
        }));
    assert(forall|j: int|
        0 <= j < ws0.len() ==> #[trigger] ws1[j] == (if ids.contains(ws0[j].api_data.world_id) {
            world_without_ledger_name(ws0[j], name)
        } else {
            ws0[j]
        }));
    assert forall|j: int| 0 <= j < ws1.len() implies no_dup((#[trigger] ws1[j]).user_data.folders) by {
        lemma_without_props(ws0[j].user_data.folders, name);
    }
    assert forall|i: int, k: int|
        0 <= i < fs1.len() && 0 <= k < (#[trigger] fs1[i]).world_ids.len() implies has_world(
        ws1,
        #[trigger] fs1[i].world_ids[k],
    ) by {
        let i0: int = if i < fi {
            i
        } else {
            i + 1
        };
        let v = fs0[i0].world_ids[k];
        assert(has_world(ws0, v));
        let j = choose|j: int| 0 <= j < ws0.len() && (#[trigger] ws0[j]).api_data.world_id == v;
        assert(ws1[j].api_data.world_id == v);
    }
    assert forall|i: int, j: int|
        0 <= i < fs1.len() && 0 <= j < ws1.len() && (#[trigger] ws1[j]).user_data.hidden implies !(
    #[trigger] fs1[i]).world_ids.contains(ws1[j].api_data.world_id) by {
        let i0: int = if i < fi {
            i
        } else {
            i + 1
        };
        assert(fs1[i] == fs0[i0]);
        assert(ws1[j].api_data.world_id == ws0[j].api_data.world_id);
        assert(ws1[j].user_data.hidden == ws0[j].user_data.hidden);
    }
    assert forall|i: int, j: int|
        0 <= i < fs1.len() && 0 <= j < ws1.len() && !(#[trigger] ws1[j]).user_data.hidden implies ((
    #[trigger] fs1[i]).world_ids.contains(ws1[j].api_data.world_id)
        <==> ws1[j].user_data.folders.contains(fs1[i].folder_name)) by {
        let i0: int = if i < fi {
            i
        } else {
            i + 1
        };
        assert(fs1[i] == fs0[i0]);
        let jid = ws1[j].api_data.world_id;
        let iname = fs0[i0].folder_name;
        assert(jid == ws0[j].api_data.world_id);
        assert(!ws0[j].user_data.hidden);
        assert(iname != name) by {
            if iname == name {
                assert(folder_names_unique(fs0));
            }
        }
        if ids.contains(jid) {
            lemma_without_props(ws0[j].user_data.folders, name);
            assert(ws1[j].user_data.folders.contains(iname) == ws0[j].user_data.folders.contains(
                iname,
            ));
        } else {
            assert(ws1[j] == ws0[j]);
        }
    }
    assert forall|j: int, n: int|
        0 <= j < ws1.len() && !(#[trigger] ws1[j]).user_data.hidden && 0 <= n < ws1[j].user_data.folders.len()
        implies has_folder(fs1, #[trigger] ws1[j].user_data.folders[n]) by {
        let v = ws1[j].user_data.folders[n];
        let jid = ws0[j].api_data.world_id;
        lemma_without_props(ws0[j].user_data.folders, name);
        assert(ws0[j].user_data.folders.contains(v)) by {
            if !ids.contains(jid) {
                assert(ws1[j] == ws0[j]);
                assert(ws0[j].user_data.folders[n] == v);
            }
        }
        assert(v != name) by {
            if v == name {
                if ids.contains(jid) {
                    // The member's new ledger no longer holds the name.
                    assert(!ws1[j].user_data.folders.contains(name));
                    assert(ws1[j].user_data.folders[n] == v);
                } else {
                    // A visible non-member never held the name.
                    assert(ws0[j].user_data.folders.contains(name));
                    assert(fs0[fi].world_ids.contains(jid));
                }
            }
        }
        assert(has_folder(fs0, v));
        let i = choose|i: int| 0 <= i < fs0.len() && (#[trigger] fs0[i]).folder_name == v;
        assert(i != fi);
        if i < fi {
            assert(fs1[i].folder_name == v);
        } else {
            assert(fs1[i - 1].folder_name == v);
        }
    }
}

/// Removing a world and striking its identifier from every member list
/// keeps the store consistent.
proof fn lemma_delete_world_consistent(fs0: Seq<FolderV>, ws0: Seq<WorldV>, wi: int)
    requires
        consistent(fs0, ws0),
        0 <= wi < ws0.len(),
    ensures
        consistent(spec_hide_folders(fs0, ws0[wi].api_data.world_id), ws0.remove(wi)),
{
    let id = ws0[wi].api_data.world_id;
    let fs1 = spec_hide_folders(fs0, id);
    let ws1 = ws0.remove(wi);
    assert(forall|i: int| 0 <= i < fs0.len() ==> #[trigger] fs1[i] == folder_without_id(fs0[i], id));
    assert(forall|j: int|
        0 <= j < ws1.len() ==> #[trigger] ws1[j] == (if j < wi {
            ws0[j]
        } else {
            ws0[j + 1]
        }));
    assert forall|i: int| 0 <= i < fs1.len() implies no_dup((#[trigger] fs1[i]).world_ids) by {
        lemma_without_props(fs0[i].world_ids, id);
    }
    assert forall|i: int, k: int|
        0 <= i < fs1.len() && 0 <= k < (#[trigger] fs1[i]).world_ids.len() implies has_world(
        ws1,
        #[trigger] fs1[i].world_ids[k],
    ) by {
        lemma_without_props(fs0[i].world_ids, id);
        let v = fs1[i].world_ids[k];
        assert(v != id);
        assert(fs0[i].world_ids.contains(v));
        let m = choose|m: int| 0 <= m < fs0[i].world_ids.len() && fs0[i].world_ids[m] == v;
        assert(has_world(ws0, v));
        let j = choose|j: int| 0 <= j < ws0.len() && (#[trigger] ws0[j]).api_data.world_id == v;
        assert(j != wi) by {
            if j == wi {
                assert(v == id);
            }
        }
        if j < wi {
            assert(ws1[j].api_data.world_id == v);
        } else {
            assert(ws1[j - 1].api_data.world_id == v);
        }
    }
    assert forall|i: int, j: int|
        0 <= i < fs1.len() && 0 <= j < ws1.len() && (#[trigger] ws1[j]).user_data.hidden implies !(
    #[trigger] fs1[i]).world_ids.contains(ws1[j].api_data.world_id) by {
        lemma_without_props(fs0[i].world_ids, id);
        let j0: int = if j < wi {
            j
        } else {
            j + 1
        };
        assert(ws1[j] == ws0[j0]);
        let v = ws0[j0].api_data.world_id;
        if v != id {
            assert(fs1[i].world_ids.contains(v) == fs0[i].world_ids.contains(v));
        }
    }
    assert forall|i: int, j: int|
        0 <= i < fs1.len() && 0 <= j < ws1.len() && !(#[trigger] ws1[j]).user_data.hidden implies ((
    #[trigger] fs1[i]).world_ids.contains(ws1[j].api_data.world_id)
        <==> ws1[j].user_data.folders.contains(fs1[i].folder_name)) by {
        lemma_without_props(fs0[i].world_ids, id);
        let j0: int = if j < wi {
            j
        } else {
            j + 1
        };
        assert(ws1[j] == ws0[j0]);
        let v = ws0[j0].api_data.world_id;
        assert(v != id) by {
            if v == id {
                assert(world_ids_unique(ws0));
            }
        }
        assert(fs1[i].world_ids.contains(v) == fs0[i].world_ids.contains(v));
        assert(fs1[i].folder_name == fs0[i].folder_name);
    }
    assert forall|j: int, n: int|
        0 <= j < ws1.len() && !(#[trigger] ws1[j]).user_data.hidden && 0 <= n < ws1[j].user_data.folders.len()
        implies has_folder(fs1, #[trigger] ws1[j].user_data.folders[n]) by {
        let j0: int = if j < wi {
            j
        } else {
            j + 1
        };
        assert(ws1[j] == ws0[j0]);
        let v = ws0[j0].user_data.folders[n];
        assert(has_folder(fs0, v));
        let i = choose|i: int| 0 <= i < fs0.len() && (#[trigger] fs0[i]).folder_name == v;
        assert(fs1[i].folder_name == v);
    }
}

/// A visible world with an empty ledger shows up in the ungrouped query.
pub proof fn lemma_unclassified_membership(ws: Seq<WorldV>, j: int)
    requires
        0 <= j < ws.len(),
        !ws[j].user_data.hidden,
        ws[j].user_data.folders.len() == 0,
    ensures
        spec_unclassified_displays(ws).contains(crate::entities::spec_display_data(ws[j])),
    decreases ws.len(),
{
    if j == ws.len() - 1 {
        assert(ws.last() == ws[j]);
        let rest = spec_unclassified_displays(ws.drop_last());
        assert(spec_unclassified_displays(ws).last() == crate::entities::spec_display_data(ws[j]));
    } else {
        let t = ws.drop_last();
        assert(t[j] == ws[j]);
        lemma_unclassified_membership(t, j);
        let d = crate::entities::spec_display_data(ws[j]);
        let rest = spec_unclassified_displays(t);
        let k = choose|k: int| 0 <= k < rest.len() && rest[k] == d;
        if ws.last().user_data.folders.len() == 0 && !ws.last().user_data.hidden {
            assert(spec_unclassified_displays(ws)[k] == d);
        } else {
            assert(spec_unclassified_displays(ws)[k] == d);
        }
    }
}

impl FolderManager {
    /// Deletes a folder: the record goes away and the folder's name is
    /// struck from every member world's ledger, so stale names never
    /// accumulate on the worlds it listed. (Hidden worlds, which are never
    /// members, keep the name in their ledger, as the hide/unhide design
    /// intends.) Fails only when no folder bears the name. A sole
    /// membership struck this way leaves that world ungrouped (see
    /// [`lemma_unclassified_membership`]).
    pub fn delete_folder(
        name: String,
        folders: &mut Vec<FolderModel>,
        worlds: &mut Vec<WorldModel>,
    ) -> (r: Result<(), AppError>)
        requires
            consistent(fviews(old(folders)@), wviews(old(worlds)@)),
        ensures
            consistent(fviews(final(folders)@), wviews(final(worlds)@)),
            (r is Ok) <==> has_folder(fviews(old(folders)@), name@),
            r matches Err(e) ==> (e matches AppError::Entity(EntityError::FolderNotFound(n)) && n@
                == name@) && final(folders)@ == old(folders)@ && final(worlds)@ == old(worlds)@,
            r is Ok ==> !has_folder(fviews(final(folders)@), name@),
            r is Ok ==> forall|fi: int|
                0 <= fi < fviews(old(folders)@).len() && (#[trigger] fviews(
                    old(folders)@,
                )[fi]).folder_name == name@ ==> fviews(final(folders)@) == fviews(
                    old(folders)@,
                ).remove(fi) && wviews(final(worlds)@) == spec_delete_folder_worlds(
                    wviews(old(worlds)@),
                    fviews(old(folders)@)[fi].world_ids,
                    name@,
                ),
    {
        let fi = match find_folder(folders, &name) {
            Some(i) => i,
            None => {
                return Err(AppError::Entity(EntityError::FolderNotFound(name)));
            },
        };
        let ghost fs0 = fviews(folders@);
        let ghost ws0 = wviews(worlds@);
        proof {
            assert(fs0[fi as int] == folders@[fi as int]@);
            lemma_delete_folder_consistent(fs0, ws0, fi as int);
        }
        let folder = folders.remove(fi);
        let member_ids = folder.world_ids;
        proof {
            assert forall|k: int| 0 <= k < fviews(folders@).len() implies fviews(folders@)[k]
                == fs0.remove(fi as int)[k] by {
                assert(fviews(folders@)[k] == folders@[k]@);
                if k < fi as int {
                    assert(folders@[k] == old(folders)@[k]);
                } else {
                    assert(folders@[k] == old(folders)@[k + 1]);
                }
            }
            assert(fviews(folders@) =~= fs0.remove(fi as int));
            assert(member_ids.deep_view() =~= fs0[fi as int].world_ids);
            assert(!has_folder(fviews(folders@), name@)) by {
                if has_folder(fviews(folders@), name@) {
                    let k = choose|k: int|
                        0 <= k < fviews(folders@).len() && (#[trigger] fviews(
                            folders@,
                        )[k]).folder_name == name@;
                    let k0: int = if k < fi as int {
                        k
                    } else {
                        k + 1
                    };
                    assert(fs0[k0].folder_name == name@);
                    assert(folder_names_unique(fs0));
                }
            }
        }
        let mut j: usize = 0;
        while j < worlds.len()
            invariant
                0 <= j <= worlds@.len(),
                worlds@.len() == ws0.len(),
                member_ids.deep_view() == fs0[fi as int].world_ids,
                fi < fs0.len(),
                name@ == fs0[fi as int].folder_name,
                forall|k: int|
                    0 <= k < j ==> #[trigger] wviews(worlds@)[k] == (if fs0[
                        fi as int
                    ].world_ids.contains(ws0[k].api_data.world_id) {
                        world_without_ledger_name(ws0[k], name@)
                    } else {
                        ws0[k]
                    }),
                forall|k: int| j <= k < ws0.len() ==> #[trigger] wviews(worlds@)[k] == ws0[k],
            decreases worlds@.len() - j,
        {
            let ghost pre = wviews(worlds@);
            let is_member = crate::text::vec_contains_string(
                &member_ids,
                &worlds[j].api_data.world_id,
            );
            proof {
                crate::entities::lemma_contains_string_deep_view(
                    member_ids,
                    worlds@[j as int].api_data.world_id@,
                );
                assert(wviews(worlds@)[j as int] == worlds@[j as int]@);
                assert(is_member == fs0[fi as int].world_ids.contains(
                    ws0[j as int].api_data.world_id,
                ));
            }
            if is_member {
                let new_ledger = vec_without(&worlds[j].user_data.folders, &name);
                world_set_ledger(worlds, j, new_ledger);
            }
            proof {
                assert forall|k: int| 0 <= k < j + 1 implies #[trigger] wviews(worlds@)[k] == (
                if fs0[fi as int].world_ids.contains(ws0[k].api_data.world_id) {
                    world_without_ledger_name(ws0[k], name@)
                } else {
                    ws0[k]
                }) by {
                    if k < j as int {
                        assert(wviews(worlds@)[k] == pre[k]);
                    }
                }
                assert forall|k: int| j + 1 <= k < ws0.len() implies #[trigger] wviews(
                    worlds@,
                )[k] == ws0[k] by {
                    assert(wviews(worlds@)[k] == pre[k]);
                }
            }
            j = j + 1;
        }
        proof {
            assert forall|k: int| 0 <= k < ws0.len() implies #[trigger] wviews(worlds@)[k]
                == spec_delete_folder_worlds(ws0, fs0[fi as int].world_ids, name@)[k] by {}
            assert(wviews(worlds@) =~= spec_delete_folder_worlds(
                ws0,
                fs0[fi as int].world_ids,
                name@,
            ));
            assert forall|fi2: int|
                0 <= fi2 < fs0.len() && (#[trigger] fs0[fi2]).folder_name == name@ implies fi2
                == fi as int by {
                if fi2 != fi as int {
                    assert(fs0[fi as int].folder_name == name@);
                }
            }
        }
        Ok(())
    }

    /// Deletes a world outright: the record goes away and its identifier
    /// is struck from every folder's member list — deleting a world in
    /// three folders removes it from all three. Fails only when no world
    /// bears the identifier.
    pub fn delete_world(
        world_id: String,
        folders: &mut Vec<FolderModel>,
        worlds: &mut Vec<WorldModel>,
    ) -> (r: Result<(), AppError>)
        requires
            consistent(fviews(old(folders)@), wviews(old(worlds)@)),
        ensures
            consistent(fviews(final(folders)@), wviews(final(worlds)@)),
            (r is Ok) <==> has_world(wviews(old(worlds)@), world_id@),
            r matches Err(e) ==> (e matches AppError::Entity(EntityError::WorldNotFound(n)) && n@
                == world_id@) && final(folders)@ == old(folders)@ && final(worlds)@ == old(worlds)@,
            r is Ok ==> fviews(final(folders)@) == spec_hide_folders(
                fviews(old(folders)@),
                world_id@,
            ) && !has_world(wviews(final(worlds)@), world_id@) && (forall|i: int|
                0 <= i < fviews(final(folders)@).len() ==> !(#[trigger] fviews(
                    final(folders)@,
                )[i]).world_ids.contains(world_id@)),
            r is Ok ==> forall|wi: int|
                0 <= wi < wviews(old(worlds)@).len() && (#[trigger] wviews(
                    old(worlds)@,
                )[wi]).api_data.world_id == world_id@ ==> wviews(final(worlds)@) == wviews(
                    old(worlds)@,
                ).remove(wi),
    {
        let wi = match find_world(worlds, &world_id) {
            Some(i) => i,
            None => {
                return Err(AppError::Entity(EntityError::WorldNotFound(world_id)));
            },
        };
        let ghost fs0 = fviews(folders@);
        let ghost ws0 = wviews(worlds@);
        proof {
            assert(ws0[wi as int] == worlds@[wi as int]@);
            lemma_unique_world_position(ws0, wi as int);
            lemma_delete_world_consistent(fs0, ws0, wi as int);
        }
        let removed = worlds.remove(wi);
        proof {
            assert forall|k: int| 0 <= k < wviews(worlds@).len() implies wviews(worlds@)[k]
                == ws0.remove(wi as int)[k] by {
                assert(wviews(worlds@)[k] == worlds@[k]@);
                if k < wi as int {
                    assert(worlds@[k] == old(worlds)@[k]);
                } else {
                    assert(worlds@[k] == old(worlds)@[k + 1]);
                }
            }
            assert(wviews(worlds@) =~= ws0.remove(wi as int));
        }
        let mut i: usize = 0;
        while i < folders.len()
            invariant
                0 <= i <= folders@.len(),
                folders@.len() == fs0.len(),
                forall|k: int|
                    0 <= k < i ==> #[trigger] fviews(folders@)[k] == folder_without_id(
                        fs0[k],
                        world_id@,
                    ),
                forall|k: int| i <= k < fs0.len() ==> #[trigger] fviews(folders@)[k] == fs0[k],
            decreases folders@.len() - i,
        {
            let ghost pre = fviews(folders@);
            let new_ids = vec_without(&folders[i].world_ids, &world_id);
            folder_set_ids(folders, i, new_ids);
            proof {
                assert forall|k: int| 0 <= k < i + 1 implies #[trigger] fviews(folders@)[k]
                    == folder_without_id(fs0[k], world_id@) by {
                    if k < i as int {
                        assert(fviews(folders@)[k] == pre[k]);
                    } else {
                        assert(fviews(folders@)[k] =~~= folder_without_id(fs0[k], world_id@));
                    }
                }
                assert forall|k: int| i + 1 <= k < fs0.len() implies #[trigger] fviews(
                    folders@,
                )[k] == fs0[k] by {
                    assert(fviews(folders@)[k] == pre[k]);
                }
            }
            i = i + 1;
        }
        proof {
            assert forall|k: int| 0 <= k < fs0.len() implies #[trigger] fviews(folders@)[k]
                == spec_hide_folders(fs0, world_id@)[k] by {}
            assert(fviews(folders@) =~= spec_hide_folders(fs0, world_id@));
            assert forall|i2: int| 0 <= i2 < fviews(folders@).len() implies !(#[trigger] fviews(
                folders@,
            )[i2]).world_ids.contains(world_id@) by {
                lemma_without_props(fs0[i2].world_ids, world_id@);
            }
            assert(!has_world(wviews(worlds@), world_id@)) by {
                if has_world(wviews(worlds@), world_id@) {
                    let k = choose|k: int|
                        0 <= k < wviews(worlds@).len() && (#[trigger] wviews(
                            worlds@,
                        )[k]).api_data.world_id == world_id@;
                    let k0: int = if k < wi as int {
                        k
                    } else {
                        k + 1
                    };
                    assert(ws0[k0].api_data.world_id == world_id@);
                    assert(world_ids_unique(ws0));
                }
            }
        }
        Ok(())
    }
}

/// A world's ledger after a folder rename: the old name struck, the new
/// name appended unless already present.
pub open spec fn renamed_ledger(l: Seq<Seq<char>>, old_name: Seq<char>, new_name: Seq<char>) -> Seq<
    Seq<char>,
> {
    let b = without(l, old_name);
    if b.contains(new_name) {
        b
    } else {
        b.push(new_name)
    }
}

/// What renaming does to the world side: members of the renamed folder
/// carry the new name in their ledgers, everyone else is untouched.
pub open spec fn spec_rename_worlds(
    ws: Seq<WorldV>,
    member_ids: Seq<Seq<char>>,
    old_name: Seq<char>,
    new_name: Seq<char>,
) -> Seq<WorldV> {
    ws.map_values(
        |w: WorldV|
            if member_ids.contains(w.api_data.world_id) {
                WorldV {
                    user_data: WorldUserV {
                        folders: renamed_ledger(w.user_data.folders, old_name, new_name),
                        ..w.user_data
                    },
                    ..w
                }
            } else {
                w
            },
    )
}

/// Renaming a folder in place and rewriting its members' ledgers keeps
/// the store consistent, provided the new name is free (or is the old
/// name itself).
proof fn lemma_rename_consistent(
    fs0: Seq<FolderV>,
    ws0: Seq<WorldV>,
    fi: int,
    new_name: Seq<char>,
)
    requires
        consistent(fs0, ws0),
        0 <= fi < fs0.len(),
        new_name == fs0[fi].folder_name || !has_folder(fs0, new_name),
    ensures
        consistent(
            fs0.update(fi, (FolderV { folder_name: new_name, ..fs0[fi] })),
            spec_rename_worlds(ws0, fs0[fi].world_ids, fs0[fi].folder_name, new_name),
        ),
{
    let old_name = fs0[fi].folder_name;
    let ids = fs0[fi].world_ids;
    let fs1 = fs0.update(fi, (FolderV { folder_name: new_name, ..fs0[fi] }));
    let ws1 = spec_rename_worlds(ws0, ids, old_name, new_name);
    assert(forall|j: int|
        0 <= j < ws0.len() ==> #[trigger] ws1[j] == (if ids.contains(ws0[j].api_data.world_id) {
            WorldV {
                user_data: WorldUserV {
                    folders: renamed_ledger(ws0[j].user_data.folders, old_name, new_name),
                    ..ws0[j].user_data
                },
                ..ws0[j]
            }
        } else {
            ws0[j]
        }));
    assert forall|i: int, j: int|
        0 <= i < j < fs1.len() implies (#[trigger] fs1[i]).folder_name != (
    #[trigger] fs1[j]).folder_name by {
        if new_name != old_name {
            if i == fi && fs1[j].folder_name == new_name {
                assert(has_folder(fs0, new_name));
            }
            if j == fi && fs1[i].folder_name == new_name {
                assert(has_folder(fs0, new_name));
            }
        }
    }
    assert forall|j: int| 0 <= j < ws1.len() implies no_dup((#[trigger] ws1[j]).user_data.folders) by {
        if ids.contains(ws0[j].api_data.world_id) {
            lemma_without_props(ws0[j].user_data.folders, old_name);
            let b = without(ws0[j].user_data.folders, old_name);
            let s = ws1[j].user_data.folders;
            if !b.contains(new_name) {
                assert(s == b.push(new_name));
                assert forall|a: int, c: int| 0 <= a < c < s.len() implies s[a] != s[c] by {
                    if c == s.len() - 1 {
                        assert(s[a] == b[a]);
                        if s[a] == new_name {
                            assert(b.contains(new_name));
                        }
                    }
                }
            }
        }
    }
    assert forall|i: int, k: int|
        0 <= i < fs1.len() && 0 <= k < (#[trigger] fs1[i]).world_ids.len() implies has_world(
        ws1,
        #[trigger] fs1[i].world_ids[k],
    ) by {
        assert(fs1[i].world_ids == fs0[i].world_ids);
        let v = fs0[i].world_ids[k];
        assert(has_world(ws0, v));
        let j = choose|j: int| 0 <= j < ws0.len() && (#[trigger] ws0[j]).api_data.world_id == v;
        assert(ws1[j].api_data.world_id == v);
    }
    assert forall|i: int, j: int|
        0 <= i < fs1.len() && 0 <= j < ws1.len() && (#[trigger] ws1[j]).user_data.hidden implies !(
    #[trigger] fs1[i]).world_ids.contains(ws1[j].api_data.world_id) by {
        assert(fs1[i].world_ids == fs0[i].world_ids);
        assert(ws1[j].api_data.world_id == ws0[j].api_data.world_id);
        assert(ws1[j].user_data.hidden == ws0[j].user_data.hidden);
    }
    assert forall|i: int, j: int|
        0 <= i < fs1.len() && 0 <= j < ws1.len() && !(#[trigger] ws1[j]).user_data.hidden implies ((
    #[trigger] fs1[i]).world_ids.contains(ws1[j].api_data.world_id)
        <==> ws1[j].user_data.folders.contains(fs1[i].folder_name)) by {
        let jid = ws0[j].api_data.world_id;
        assert(fs1[i].world_ids == fs0[i].world_ids);
        assert(ws1[j].api_data.world_id == jid);
        assert(!ws0[j].user_data.hidden);
        if ids.contains(jid) {
            // A member of the renamed folder; members are visible, so the
            // old name sat in its ledger.
            assert(fs0[fi].world_ids.contains(jid));
            assert(ws0[j].user_data.folders.contains(old_name));
            lemma_without_props(ws0[j].user_data.folders, old_name);
            let b = without(ws0[j].user_data.folders, old_name);
            let s = ws1[j].user_data.folders;
            assert forall|x: Seq<char>| #[trigger] s.contains(x) == (x == new_name || b.contains(
                x,
            )) by {
                if b.contains(new_name) {
                    assert(s == b);
                    if x == new_name {
                    }
                } else {
                    assert(s == b.push(new_name));
                    if b.contains(x) {
                        let m = choose|m: int| 0 <= m < b.len() && b[m] == x;
                        assert(s[m] == x);
                    }
                    if s.contains(x) && x != new_name {
                        let m = choose|m: int| 0 <= m < s.len() && s[m] == x;
                        assert(m < s.len() - 1);
                        assert(b[m] == x);
                    }
                    if x == new_name {
                        assert(s.last() == new_name);
                    }
                }
            }
            if i == fi {
                assert(fs1[i].folder_name == new_name);
                assert(s.contains(new_name));
            } else {
                let iname = fs0[i].folder_name;
                assert(fs1[i].folder_name == iname);
                assert(iname != old_name) by {
                    if iname == old_name {
                        assert(folder_names_unique(fs0));
                    }
                }
                assert(iname != new_name) by {
                    if iname == new_name {
                        if new_name == old_name {
                        } else {
                            assert(has_folder(fs0, new_name));
                        }
                    }
                }
                assert(s.contains(iname) == b.contains(iname));
                assert(b.contains(iname) == ws0[j].user_data.folders.contains(iname));
            }
        } else {
            assert(ws1[j] == ws0[j]);
            assert(!fs0[fi].world_ids.contains(jid));
            if i == fi {
                // Not a member: the visible world's ledger held neither
                // the old name nor (it being fresh) the new one.
                assert(!ws0[j].user_data.folders.contains(old_name));
                if new_name != old_name && ws0[j].user_data.folders.contains(new_name) {
                    assert(has_folder(fs0, new_name));
                }
            }
        }
    }
    assert forall|j: int, n: int|
        0 <= j < ws1.len() && !(#[trigger] ws1[j]).user_data.hidden && 0 <= n < ws1[j].user_data.folders.len()
        implies has_folder(fs1, #[trigger] ws1[j].user_data.folders[n]) by {
        let v = ws1[j].user_data.folders[n];
        let jid = ws0[j].api_data.world_id;
        if ids.contains(jid) {
            lemma_without_props(ws0[j].user_data.folders, old_name);
            let b = without(ws0[j].user_data.folders, old_name);
            let s = ws1[j].user_data.folders;
            if b.contains(new_name) || n < s.len() - 1 || s == b {
                if s.contains(v) && v != new_name {
                }
            }
            if v == new_name {
                assert(fs1[fi].folder_name == new_name);
            } else {
                // v survived the strike, so it is an old ledger name
                // other than the old folder name.
                assert(b.contains(v)) by {
                    if s == b {
                        assert(s[n] == v);
                    } else {
                        assert(s == b.push(new_name));
                        assert(n < s.len() - 1) by {
                            if n == s.len() - 1 {
                                assert(s[n] == new_name);
                            }
                        }
                        assert(b[n] == v);
                    }
                }
                assert(ws0[j].user_data.folders.contains(v));
                assert(v != old_name);
                assert(has_folder(fs0, v));
                let i = choose|i: int| 0 <= i < fs0.len() && (#[trigger] fs0[i]).folder_name == v;
                assert(i != fi);
                assert(fs1[i].folder_name == v);
            }
        } else {
            assert(ws1[j] == ws0[j]);
            let v2 = ws0[j].user_data.folders[n];
            assert(has_folder(fs0, v2));
            let i = choose|i: int| 0 <= i < fs0.len() && (#[trigger] fs0[i]).folder_name == v2;
            if i == fi {
                // A visible world naming the folder is a member.
                assert(ws0[j].user_data.folders.contains(old_name)) by {
                    assert(ws0[j].user_data.folders[n] == old_name);
                }
                assert(fs0[fi].world_ids.contains(jid));
                assert(false);
            }
            assert(fs1[i].folder_name == v2);
        }
    }
}

/// Folder edits that keep every name and member list (color, share) keep
/// the store consistent against any worlds.
pub proof fn lemma_consistent_folder_cosmetics(fs0: Seq<FolderV>, fs1: Seq<FolderV>, ws: Seq<WorldV>)
    requires
        consistent(fs0, ws),
        fs1.len() == fs0.len(),
        forall|i: int|
            0 <= i < fs0.len() ==> (#[trigger] fs1[i]).folder_name == fs0[i].folder_name
                && fs1[i].world_ids == fs0[i].world_ids,
    ensures
        consistent(fs1, ws),
{
    assert forall|i: int, k: int|
        0 <= i < fs1.len() && 0 <= k < (#[trigger] fs1[i]).world_ids.len() implies has_world(
        ws,
        #[trigger] fs1[i].world_ids[k],
    ) by {
        assert(fs1[i].world_ids[k] == fs0[i].world_ids[k]);
    }
    assert forall|j: int, n: int|
        0 <= j < ws.len() && !(#[trigger] ws[j]).user_data.hidden && 0 <= n < ws[j].user_data.folders.len()
        implies has_folder(fs1, #[trigger] ws[j].user_data.folders[n]) by {
        let v = ws[j].user_data.folders[n];
        assert(has_folder(fs0, v));
        let i = choose|i: int| 0 <= i < fs0.len() && (#[trigger] fs0[i]).folder_name == v;
        assert(fs1[i].folder_name == v);
    }
}

/// Moving one element of a folder list moves its view the same way.
proof fn lemma_move_views(pre: Seq<FolderModel>, post: Seq<FolderModel>, ci: int, ni: int)
    requires
        0 <= ci < pre.len(),
        0 <= ni <= pre.len() - 1,
        post == pre.remove(ci).insert(ni, pre[ci]),
    ensures
        fviews(post) == fviews(pre).remove(ci).insert(ni, fviews(pre)[ci]),
{
    let target = fviews(pre).remove(ci).insert(ni, fviews(pre)[ci]);
    assert(forall|a: int|
        0 <= a < pre.remove(ci).len() ==> #[trigger] pre.remove(ci)[a] == (if a < ci {
            pre[a]
        } else {
            pre[a + 1]
        }));
    assert(forall|a: int|
        0 <= a < fviews(pre).remove(ci).len() ==> #[trigger] fviews(pre).remove(ci)[a] == (if a
            < ci {
            fviews(pre)[a]
        } else {
            fviews(pre)[a + 1]
        }));
    assert forall|k: int| 0 <= k < fviews(post).len() implies fviews(post)[k] == target[k] by {
        assert(fviews(post)[k] == post[k]@);
        if k == ni {
            assert(post[k] == pre[ci]);
            assert(target[k] == fviews(pre)[ci]);
        } else {
            let a: int = if k < ni {
                k
            } else {
                k - 1
            };
            assert(post[k] == pre.remove(ci)[a]);
            assert(target[k] == fviews(pre).remove(ci)[a]);
            if a < ci {
                assert(post[k] == pre[a]);
                assert(target[k] == fviews(pre)[a]);
            } else {
                assert(post[k] == pre[a + 1]);
                assert(target[k] == fviews(pre)[a + 1]);
            }
        }
    }
    assert(fviews(post) =~= target);
}

/// A moved folder list keeps unique names and holds exactly the folders
/// it held.
#[verifier::rlimit(100)]
#[verifier::spinoff_prover]
proof fn lemma_moved_folder_props(fs0: Seq<FolderV>, ci: int, ni: int)
    requires
        folder_names_unique(fs0),
        0 <= ci < fs0.len(),
        0 <= ni <= fs0.len() - 1,
    ensures
        ({
            let target = fs0.remove(ci).insert(ni, fs0[ci]);
            &&& target.len() == fs0.len()
            &&& folder_names_unique(target)
            &&& (forall|i: int|
                0 <= i < target.len() ==> exists|j: int|
                    0 <= j < fs0.len() && #[trigger] target[i] == fs0[j])
            &&& (forall|j: int|
                0 <= j < fs0.len() ==> exists|i: int|
                    0 <= i < target.len() && target[i] == #[trigger] fs0[j])
        }),
{
    let target = fs0.remove(ci).insert(ni, fs0[ci]);
    assert(forall|a: int|
        0 <= a < fs0.remove(ci).len() ==> #[trigger] fs0.remove(ci)[a] == (if a < ci {
            fs0[a]
        } else {
            fs0[a + 1]
        }));
    assert forall|i: int| 0 <= i < target.len() implies exists|j: int|
        0 <= j < fs0.len() && #[trigger] target[i] == fs0[j] by {
        if i == ni {
            assert(target[i] == fs0[ci]);
        } else {
            let a: int = if i < ni {
                i
            } else {
                i - 1
            };
            let j: int = if a < ci {
                a
            } else {
                a + 1
            };
            assert(target[i] == fs0[j]);
        }
    }
    assert forall|j: int| 0 <= j < fs0.len() implies exists|i: int|
        0 <= i < target.len() && target[i] == #[trigger] fs0[j] by {
        if j == ci {
            assert(target[ni] == fs0[j]);
        } else {
            let a: int = if j < ci {
                j
            } else {
                j - 1
            };
            let i: int = if a < ni {
                a
            } else {
                a + 1
            };
            assert(target[i] == fs0[j]);
        }
    }
    assert forall|x: int, y: int|
        0 <= x < y < target.len() implies (#[trigger] target[x]).folder_name != (
    #[trigger] target[y]).folder_name by {
        let ax: int = if x < ni {
            x
        } else {
            x - 1
        };
        let ay: int = if y < ni {
            y
        } else {
            y - 1
        };
        let sx: int = if x == ni {
            ci
        } else if ax < ci {
            ax
        } else {
            ax + 1
        };
        let sy: int = if y == ni {
            ci
        } else if ay < ci {
            ay
        } else {
            ay + 1
        };
        assert(target[x] == fs0[sx]);
        assert(target[y] == fs0[sy]);
        assert(sx != sy);
    }
}

/// A reordering of the folders keeps the store consistent against any
/// worlds.
pub proof fn lemma_consistent_folder_reorder(fs0: Seq<FolderV>, fs1: Seq<FolderV>, ws: Seq<WorldV>)
    requires
        consistent(fs0, ws),
        fs1.len() == fs0.len(),
        forall|i: int| 0 <= i < fs1.len() ==> exists|j: int| 0 <= j < fs0.len() && #[trigger] fs1[i] == fs0[j],
        forall|j: int| 0 <= j < fs0.len() ==> exists|i: int| 0 <= i < fs1.len() && fs1[i] == #[trigger] fs0[j],
        folder_names_unique(fs1),
    ensures
        consistent(fs1, ws),
{
    assert forall|i: int, k: int|
        0 <= i < fs1.len() && 0 <= k < (#[trigger] fs1[i]).world_ids.len() implies has_world(
        ws,
        #[trigger] fs1[i].world_ids[k],
    ) by {
        let j = choose|j: int| 0 <= j < fs0.len() && fs1[i] == fs0[j];
        assert(fs0[j].world_ids[k] == fs1[i].world_ids[k]);
    }
    assert forall|i: int| 0 <= i < fs1.len() implies no_dup((#[trigger] fs1[i]).world_ids) by {
        let j = choose|j: int| 0 <= j < fs0.len() && fs1[i] == fs0[j];
    }
    assert forall|i: int, j: int|
        0 <= i < fs1.len() && 0 <= j < ws.len() && (#[trigger] ws[j]).user_data.hidden implies !(
    #[trigger] fs1[i]).world_ids.contains(ws[j].api_data.world_id) by {
        let j0 = choose|j0: int| 0 <= j0 < fs0.len() && fs1[i] == fs0[j0];
    }
    assert forall|i: int, j: int|
        0 <= i < fs1.len() && 0 <= j < ws.len() && !(#[trigger] ws[j]).user_data.hidden implies ((
    #[trigger] fs1[i]).world_ids.contains(ws[j].api_data.world_id)
        <==> ws[j].user_data.folders.contains(fs1[i].folder_name)) by {
        let j0 = choose|j0: int| 0 <= j0 < fs0.len() && fs1[i] == fs0[j0];
    }
    assert forall|j: int, n: int|
        0 <= j < ws.len() && !(#[trigger] ws[j]).user_data.hidden && 0 <= n < ws[j].user_data.folders.len()
        implies has_folder(fs1, #[trigger] ws[j].user_data.folders[n]) by {
        let v = ws[j].user_data.folders[n];
        assert(has_folder(fs0, v));
        let i0 = choose|i0: int| 0 <= i0 < fs0.len() && (#[trigger] fs0[i0]).folder_name == v;
        let i1 = choose|i1: int| 0 <= i1 < fs1.len() && fs1[i1] == fs0[i0];
        assert(fs1[i1].folder_name == v);
    }
}

impl FolderManager {
    /// Renames a folder and rewrites every member world's ledger,
    /// replacing the old name with the new one (deduplicating where the
    /// new name already sat there). Where the caller's preferences keep a
    /// starred-filter folder list, the first entry bearing the old name is
    /// rewritten too. A name another folder already bears is refused, as
    /// two folders of one name would corrupt the store.
    pub fn rename_folder(
        old_name: String,
        new_name: String,
        folders: &mut Vec<FolderModel>,
        worlds: &mut Vec<WorldModel>,
        preferences: &mut crate::entities::PreferenceModel,
    ) -> (r: Result<(), AppError>)
        requires
            consistent(fviews(old(folders)@), wviews(old(worlds)@)),
        ensures
            consistent(fviews(final(folders)@), wviews(final(worlds)@)),
            !has_folder(fviews(old(folders)@), old_name@) ==> (r matches Err(
                AppError::Entity(EntityError::FolderNotFound(n)),
            ) && n@ == old_name@),
            has_folder(fviews(old(folders)@), old_name@) && new_name@ != old_name@ && has_folder(
                fviews(old(folders)@),
                new_name@,
            ) ==> (r matches Err(AppError::Entity(EntityError::DuplicateFolder(n))) && n@
                == new_name@),
            has_folder(fviews(old(folders)@), old_name@) && (new_name@ == old_name@ || !has_folder(
                fviews(old(folders)@),
                new_name@,
            )) ==> r is Ok,
            r is Err ==> final(folders)@ == old(folders)@ && final(worlds)@ == old(worlds)@
                && *final(preferences) == *old(preferences),
            r is Ok ==> forall|fi: int|
                0 <= fi < fviews(old(folders)@).len() && (#[trigger] fviews(
                    old(folders)@,
                )[fi]).folder_name == old_name@ ==> fviews(final(folders)@) == fviews(
                    old(folders)@,
                ).update(
                    fi,
                    (FolderV { folder_name: new_name@, ..fviews(old(folders)@)[fi] }),
                ) && wviews(final(worlds)@) == spec_rename_worlds(
                    wviews(old(worlds)@),
                    fviews(old(folders)@)[fi].world_ids,
                    old_name@,
                    new_name@,
                ),
            r is Ok ==> match old(preferences).filter_item_selector_starred {
                None => final(preferences).filter_item_selector_starred is None,
                Some(sel) => final(preferences).filter_item_selector_starred matches Some(sel2)
                    && sel2.author@ == sel.author@ && sel2.tag@ == sel.tag@ && sel2.exclude_tag@
                    == sel.exclude_tag@ && (if crate::text::contains_string(
                    sel.folder@,
                    old_name@,
                ) {
                    exists|p: int|
                        0 <= p < sel.folder@.len() && (#[trigger] sel.folder@[p])@ == old_name@ && (
                        forall|q: int| 0 <= q < p ==> (#[trigger] sel.folder@[q])@ != old_name@)
                            && sel2.folder.deep_view() == sel.folder.deep_view().update(
                            p,
                            new_name@,
                        )
                } else {
                    sel2.folder@ == sel.folder@
                }),
            },
            r is Ok ==> final(preferences).first_time == old(preferences).first_time && final(preferences).theme == old(preferences).theme && final(preferences).language == old(preferences).language && final(preferences).card_size == old(preferences).card_size && final(preferences).region == old(preferences).region && final(preferences).dont_show_remove_from_folder
                == old(preferences).dont_show_remove_from_folder && final(preferences).update_channel == old(preferences).update_channel && final(preferences).sort_field
                == old(preferences).sort_field && final(preferences).sort_direction == old(preferences).sort_direction && final(preferences).default_instance_type == old(preferences).default_instance_type && final(preferences).visible_buttons == old(preferences).visible_buttons,

    {
        let fi = match find_folder(folders, &old_name) {
            Some(i) => i,
            None => {
                return Err(AppError::Entity(EntityError::FolderNotFound(old_name)));
            },
        };
        let ghost fs0 = fviews(folders@);
        let ghost ws0 = wviews(worlds@);
        proof {
            assert(fs0[fi as int] == folders@[fi as int]@);
        }
        if !(new_name == old_name) {
            match find_folder(folders, &new_name) {
                Some(g) => {
                    proof {
                        assert(fviews(folders@)[g as int] == folders@[g as int]@);
                        assert(has_folder(fviews(folders@), new_name@));
                    }
                    return Err(AppError::Entity(EntityError::DuplicateFolder(new_name)));
                },
                None => {},
            }
        }
        proof {
            if new_name@ != old_name@ {
                assert(!has_folder(fs0, new_name@));
            } else {
                assert(new_name@ == fs0[fi as int].folder_name);
            }
            lemma_rename_consistent(fs0, ws0, fi as int, new_name@);
            lemma_unique_folder_position(fs0, fi as int);
        }
        // Keep the starred-filter shortcut in step with the rename.
        let new_sel = match &preferences.filter_item_selector_starred {
            Some(sel) => {
                let mut folder_list = crate::text::clone_string_vec(&sel.folder);
                let found = crate::text::find_string(&folder_list, &old_name);
                proof {
                    assert(folder_list@ == sel.folder@);
                }
                match found {
                    Some(p) => {
                        folder_list.set(p, new_name.clone());
                        proof {
                            assert forall|k: int| 0 <= k < folder_list.deep_view().len() implies folder_list.deep_view()[k]
                                == sel.folder.deep_view().update(p as int, new_name@)[k] by {
                                assert(folder_list.deep_view()[k] == folder_list@[k]@);
                                assert(sel.folder.deep_view()[k] == sel.folder@[k]@);
                            }
                            assert(folder_list.deep_view() =~= sel.folder.deep_view().update(
                                p as int,
                                new_name@,
                            ));
                        }
                    },
                    None => {},
                }
                Some(
                    crate::entities::FilterItemSelectorStarred {
                        author: crate::text::clone_string_vec(&sel.author),
                        tag: crate::text::clone_string_vec(&sel.tag),
                        exclude_tag: crate::text::clone_string_vec(&sel.exclude_tag),
                        folder: folder_list,
                    },
                )
            },
            None => None,
        };
        preferences.filter_item_selector_starred = new_sel;
        // Rename the folder record.
        let mut f = folders.remove(fi);
        f.folder_name = new_name.clone();
        folders.insert(fi, f);
        let ghost ids = fs0[fi as int].world_ids;
        proof {
            assert(folders@ =~= old(folders)@.update(fi as int, folders@[fi as int]));
            assert forall|k: int| 0 <= k < fviews(folders@).len() implies fviews(folders@)[k]
                == fs0.update(
                fi as int,
                (FolderV { folder_name: new_name@, ..fs0[fi as int] }),
            )[k] by {
                assert(fviews(folders@)[k] == folders@[k]@);
                assert(fs0[k] == old(folders)@[k]@);
                if k == fi as int {
                    assert(folders@[k]@ =~~= (FolderV {
                        folder_name: new_name@,
                        ..fs0[fi as int]
                    }));
                }
            }
            assert(fviews(folders@) =~= fs0.update(
                fi as int,
                (FolderV { folder_name: new_name@, ..fs0[fi as int] }),
            ));
        }
        // Rewrite the member worlds' ledgers.
        let ghost member_ids = ids;
        let member_list = crate::text::clone_string_vec(&folders[fi].world_ids);
        proof {
            assert forall|k: int| 0 <= k < member_list.deep_view().len() implies member_list.deep_view()[k]
                == member_ids[k] by {
                assert(member_list.deep_view()[k] == member_list@[k]@);
                assert(member_list@[k] == folders@[fi as int].world_ids@[k]);
            }
            assert(member_list.deep_view() =~= member_ids);
        }
        let mut j: usize = 0;
        while j < worlds.len()
            invariant
                0 <= j <= worlds@.len(),
                worlds@.len() == ws0.len(),
                member_list.deep_view() == member_ids,
                forall|k: int|
                    0 <= k < j ==> #[trigger] wviews(worlds@)[k] == (if member_ids.contains(
                        ws0[k].api_data.world_id,
                    ) {
                        WorldV {
                            user_data: WorldUserV {
                                folders: renamed_ledger(
                                    ws0[k].user_data.folders,
                                    old_name@,
                                    new_name@,
                                ),
                                ..ws0[k].user_data
                            },
                            ..ws0[k]
                        }
                    } else {
                        ws0[k]
                    }),
                forall|k: int| j <= k < ws0.len() ==> #[trigger] wviews(worlds@)[k] == ws0[k],
            decreases worlds@.len() - j,
        {
            let ghost pre = wviews(worlds@);
            let is_member = crate::text::vec_contains_string(
                &member_list,
                &worlds[j].api_data.world_id,
            );
            proof {
                crate::entities::lemma_contains_string_deep_view(
                    member_list,
                    worlds@[j as int].api_data.world_id@,
                );
                assert(wviews(worlds@)[j as int] == worlds@[j as int]@);
                assert(is_member == member_ids.contains(ws0[j as int].api_data.world_id));
            }
            if is_member {
                let mut stripped = vec_without(&worlds[j].user_data.folders, &old_name);
                let already = crate::text::vec_contains_string(&stripped, &new_name);
                proof {
                    crate::entities::lemma_contains_string_deep_view(stripped, new_name@);
                }
                if !already {
                    stripped.push(new_name.clone());
                    proof {
                        assert(vstd::pervasive::cloned::<String>(
                            new_name,
                            stripped@[stripped@.len() - 1],
                        ));
                        assert(stripped.deep_view() =~= without(
                            ws0[j as int].user_data.folders,
                            old_name@,
                        ).push(new_name@));
                    }
                }
                proof {
                    assert(stripped.deep_view() =~= renamed_ledger(
                        ws0[j as int].user_data.folders,
                        old_name@,
                        new_name@,
                    ));
                }
                world_set_ledger(worlds, j, stripped);
            }
            proof {
                assert forall|k: int| 0 <= k < j + 1 implies #[trigger] wviews(worlds@)[k] == (
                if member_ids.contains(ws0[k].api_data.world_id) {
                    WorldV {
                        user_data: WorldUserV {
                            folders: renamed_ledger(ws0[k].user_data.folders, old_name@, new_name@),
                            ..ws0[k].user_data
                        },
                        ..ws0[k]
                    }
                } else {
                    ws0[k]
                }) by {
                    if k < j as int {
                        assert(wviews(worlds@)[k] == pre[k]);
                    } else {
                        if member_ids.contains(ws0[k].api_data.world_id) {
                            assert(wviews(worlds@)[k] =~~= (WorldV {
                                user_data: WorldUserV {
                                    folders: renamed_ledger(
                                        ws0[k].user_data.folders,
                                        old_name@,
                                        new_name@,
                                    ),
                                    ..ws0[k].user_data
                                },
                                ..ws0[k]
                            }));
                        }
                    }
                }
                assert forall|k: int| j + 1 <= k < ws0.len() implies #[trigger] wviews(
                    worlds@,
                )[k] == ws0[k] by {
                    assert(wviews(worlds@)[k] == pre[k]);
                }
            }
            j = j + 1;
        }
        proof {
            assert forall|k: int| 0 <= k < ws0.len() implies #[trigger] wviews(worlds@)[k]
                == spec_rename_worlds(ws0, member_ids, old_name@, new_name@)[k] by {}
            assert(wviews(worlds@) =~= spec_rename_worlds(ws0, member_ids, old_name@, new_name@));
            assert forall|fi2: int|
                0 <= fi2 < fs0.len() && (#[trigger] fs0[fi2]).folder_name == old_name@ implies fi2
                == fi as int by {
                if fi2 != fi as int {
                    assert(fs0[fi as int].folder_name == old_name@);
                }
            }
        }
        Ok(())
    }

    /// Moves a folder to a new position in the display order; members and
    /// every other folder are untouched. The target position must lie
    /// inside the list.
    pub fn move_folder(
        folder_name: String,
        new_index: usize,
        folders: &mut Vec<FolderModel>,
    ) -> (r: Result<(), AppError>)
        requires
            new_index < old(folders)@.len(),
            folder_names_unique(fviews(old(folders)@)),
        ensures
            (r is Ok) <==> has_folder(fviews(old(folders)@), folder_name@),
            r matches Err(e) ==> (e matches AppError::Entity(EntityError::FolderNotFound(n)) && n@
                == folder_name@) && final(folders)@ == old(folders)@,
            r is Ok ==> forall|ci: int|
                0 <= ci < fviews(old(folders)@).len() && (#[trigger] fviews(
                    old(folders)@,
                )[ci]).folder_name == folder_name@ ==> fviews(final(folders)@) == fviews(
                    old(folders)@,
                ).remove(ci).insert(new_index as int, fviews(old(folders)@)[ci]),
            forall|ws: Seq<WorldV>|
                #[trigger] consistent(fviews(old(folders)@), ws) ==> consistent(
                    fviews(final(folders)@),
                    ws,
                ),
    {
        let ci = match find_folder(folders, &folder_name) {
            Some(i) => i,
            None => {
                return Err(AppError::Entity(EntityError::FolderNotFound(folder_name)));
            },
        };
        let ghost fs0 = fviews(folders@);
        proof {
            assert(fs0[ci as int] == folders@[ci as int]@);
            lemma_unique_folder_position(fs0, ci as int);
        }
        let f = folders.remove(ci);
        folders.insert(new_index, f);
        proof {
            lemma_move_views(old(folders)@, folders@, ci as int, new_index as int);
            let target = fs0.remove(ci as int).insert(new_index as int, fs0[ci as int]);
            lemma_moved_folder_props(fs0, ci as int, new_index as int);
            assert forall|ws: Seq<WorldV>| #[trigger] consistent(fs0, ws) implies consistent(
                fviews(folders@),
                ws,
            ) by {
                lemma_consistent_folder_reorder(fs0, target, ws);
            }
        }
        Ok(())
    }

    /// Sets or clears a folder's color, recording the same color in the
    /// side-channel override store (kept there for older readers). Fails
    /// only when no folder bears the name.
    pub fn set_folder_color(
        folder_name: String,
        color: Option<String>,
        folders: &mut Vec<FolderModel>,
        custom_data: &mut crate::custom_data::CustomData,
    ) -> (r: Result<(), AppError>)
        requires
            old(custom_data).wf(),
            folder_names_unique(fviews(old(folders)@)),
        ensures
            final(custom_data).wf(),
            (r is Ok) <==> has_folder(fviews(old(folders)@), folder_name@),
            r matches Err(e) ==> (e matches AppError::Entity(EntityError::FolderNotFound(n)) && n@
                == folder_name@) && final(folders)@ == old(folders)@ && *final(custom_data) == *old(custom_data),
            r is Ok ==> forall|fi: int|
                0 <= fi < fviews(old(folders)@).len() && (#[trigger] fviews(
                    old(folders)@,
                )[fi]).folder_name == folder_name@ ==> fviews(final(folders)@) == fviews(
                    old(folders)@,
                ).update(
                    fi,
                    (FolderV {
                        color: match color {
                            Some(ref c) => Some(c@),
                            None => None,
                        },
                        ..fviews(old(folders)@)[fi]
                    }),
                ),
            r is Ok ==> (match color {
                Some(ref c) => crate::kv::spec_lookup(
                    final(custom_data).folder_colors@,
                    folder_name@,
                ) matches Some(s) && s@ == c@,
                None => crate::kv::spec_lookup(final(custom_data).folder_colors@, folder_name@)
                    is None,
            }),
            forall|ws: Seq<WorldV>|
                #[trigger] consistent(fviews(old(folders)@), ws) && r is Ok ==> consistent(
                    fviews(final(folders)@),
                    ws,
                ),
    {
        let fi = match find_folder(folders, &folder_name) {
            Some(i) => i,
            None => {
                return Err(AppError::Entity(EntityError::FolderNotFound(folder_name)));
            },
        };
        let ghost fs0 = fviews(folders@);
        proof {
            assert(fs0[fi as int] == folders@[fi as int]@);
        }
        let color_for_store = clone_opt_string(&color);
        match &color {
            Some(c) => custom_data.set_folder_color(folder_name.as_str(), Some(c.as_str())),
            None => custom_data.set_folder_color(folder_name.as_str(), None),
        }
        let mut f = folders.remove(fi);
        f.color = color_for_store;
        folders.insert(fi, f);
        proof {
            let target = fs0.update(
                fi as int,
                (FolderV {
                    color: match color {
                        Some(ref c) => Some(c@),
                        None => None,
                    },
                    ..fs0[fi as int]
                }),
            );
            assert(folders@ =~= old(folders)@.update(fi as int, folders@[fi as int]));
            assert forall|k: int| 0 <= k < fviews(folders@).len() implies fviews(folders@)[k]
                == target[k] by {
                assert(fviews(folders@)[k] == folders@[k]@);
                assert(fs0[k] == old(folders)@[k]@);
                if k == fi as int {
                    assert(folders@[k]@ =~~= target[fi as int]);
                }
            }
            assert(fviews(folders@) =~= target);
            assert forall|fi2: int|
                0 <= fi2 < fs0.len() && (#[trigger] fs0[fi2]).folder_name == folder_name@ implies fi2
                == fi as int by {
                if fi2 != fi as int {
                    assert(fs0[fi as int].folder_name == folder_name@);
                }
            }
            assert forall|ws: Seq<WorldV>| #[trigger] consistent(fs0, ws) implies consistent(
                fviews(folders@),
                ws,
            ) by {
                lemma_consistent_folder_cosmetics(fs0, target, ws);
            }
        }
        Ok(())
    }

    /// Records a share handle on a folder. The given timestamp text must
    /// parse as RFC 3339; the handle then lapses thirty days after that
    /// instant. Fails with the offending text when it does not parse, and
    /// with the usual error when no folder bears the name.
    pub fn set_folder_share(
        folder_name: String,
        folders: &mut Vec<FolderModel>,
        share_id: String,
        ts: String,
    ) -> (r: Result<(), AppError>)
        requires
            folder_names_unique(fviews(old(folders)@)),
        ensures
            !has_folder(fviews(old(folders)@), folder_name@) ==> (r matches Err(
                AppError::Entity(EntityError::FolderNotFound(n)),
            ) && n@ == folder_name@),
            has_folder(fviews(old(folders)@), folder_name@) && crate::trusted::rfc3339_parsed_of(
                ts@,
            ) is None ==> (r matches Err(AppError::Entity(EntityError::InvalidTimestamp(n))) && n@
                == ts@),
            r is Err ==> final(folders)@ == old(folders)@,
            r is Ok ==> crate::trusted::rfc3339_parsed_of(ts@) is Some && forall|fi: int|
                0 <= fi < fviews(old(folders)@).len() && (#[trigger] fviews(
                    old(folders)@,
                )[fi]).folder_name == folder_name@ ==> fviews(final(folders)@) == fviews(
                    old(folders)@,
                ).update(
                    fi,
                    (FolderV {
                        share: Some(
                            crate::entities::ShareInfoV {
                                id: share_id@,
                                expiry_time: expiry_after_thirty_days(
                                    crate::trusted::rfc3339_parsed_of(ts@)->Some_0,
                                ),
                            },
                        ),
                        ..fviews(old(folders)@)[fi]
                    }),
                ),
            forall|ws: Seq<WorldV>|
                #[trigger] consistent(fviews(old(folders)@), ws) ==> consistent(
                    fviews(final(folders)@),
                    ws,
                ),
    {
        let fi = match find_folder(folders, &folder_name) {
            Some(i) => i,
            None => {
                return Err(AppError::Entity(EntityError::FolderNotFound(folder_name)));
            },
        };
        let parsed = match crate::trusted::parse_timestamp_rfc3339(ts.as_str()) {
            Some(t) => t,
            None => {
                return Err(AppError::Entity(EntityError::InvalidTimestamp(ts)));
            },
        };
        let expiry = if parsed <= i64::MAX - 2592000000 {
            parsed + 2592000000
        } else {
            i64::MAX
        };
        let ghost fs0 = fviews(folders@);
        proof {
            assert(fs0[fi as int] == folders@[fi as int]@);
        }
        let mut f = folders.remove(fi);
        f.share = Some(crate::entities::ShareInfo { id: share_id, expiry_time: expiry });
        folders.insert(fi, f);
        proof {
            let target = fs0.update(
                fi as int,
                (FolderV {
                    share: Some(
                        crate::entities::ShareInfoV {
                            id: folders@[fi as int].share->Some_0.id@,
                            expiry_time: expiry,
                        },
                    ),
                    ..fs0[fi as int]
                }),
            );
            assert(folders@ =~= old(folders)@.update(fi as int, folders@[fi as int]));
            assert forall|k: int| 0 <= k < fviews(folders@).len() implies fviews(folders@)[k]
                == target[k] by {
                assert(fviews(folders@)[k] == folders@[k]@);
                assert(fs0[k] == old(folders)@[k]@);
                if k == fi as int {
                    assert(folders@[k]@ =~~= target[fi as int]);
                }
            }
            assert(fviews(folders@) =~= target);
            assert forall|fi2: int|
                0 <= fi2 < fs0.len() && (#[trigger] fs0[fi2]).folder_name == folder_name@ implies fi2
                == fi as int by {
                if fi2 != fi as int {
                    assert(fs0[fi as int].folder_name == folder_name@);
                }
            }
            assert forall|ws: Seq<WorldV>| #[trigger] consistent(fs0, ws) implies consistent(
                fviews(folders@),
                ws,
            ) by {
                lemma_consistent_folder_cosmetics(fs0, fviews(folders@), ws);
            }
        }
        Ok(())
    }

    /// Reads a folder's share handle at time `now` (milliseconds since
    /// the epoch): the identifier while the handle has not lapsed; a
    /// lapsed handle is cleared and None returned, as for a folder that
    /// never had one. Fails only when no folder bears the name.
    pub fn update_folder_share(
        folder_name: String,
        folders: &mut Vec<FolderModel>,
        now: i64,
    ) -> (r: Result<Option<String>, AppError>)
        requires
            folder_names_unique(fviews(old(folders)@)),
        ensures
            (r is Ok) <==> has_folder(fviews(old(folders)@), folder_name@),
            r matches Err(e) ==> (e matches AppError::Entity(EntityError::FolderNotFound(n)) && n@
                == folder_name@) && final(folders)@ == old(folders)@,
            r matches Ok(out) ==> forall|fi: int|
                0 <= fi < fviews(old(folders)@).len() && (#[trigger] fviews(
                    old(folders)@,
                )[fi]).folder_name == folder_name@ ==> (match fviews(old(folders)@)[fi].share {
                    None => out is None && final(folders)@ == old(folders)@,
                    Some(info) => if info.expiry_time <= now {
                        out is None && fviews(final(folders)@) == fviews(old(folders)@).update(
                            fi,
                            (FolderV { share: None, ..fviews(old(folders)@)[fi] }),
                        )
                    } else {
                        (out matches Some(s) && s@ == info.id) && final(folders)@ == old(folders)@
                    },
                }),
            forall|ws: Seq<WorldV>|
                #[trigger] consistent(fviews(old(folders)@), ws) ==> consistent(
                    fviews(final(folders)@),
                    ws,
                ),
    {
        let fi = match find_folder(folders, &folder_name) {
            Some(i) => i,
            None => {
                return Err(AppError::Entity(EntityError::FolderNotFound(folder_name)));
            },
        };
        let ghost fs0 = fviews(folders@);
        proof {
            assert(fs0[fi as int] == folders@[fi as int]@);
            assert forall|fi2: int|
                0 <= fi2 < fs0.len() && (#[trigger] fs0[fi2]).folder_name == folder_name@ implies fi2
                == fi as int by {
                if fi2 != fi as int {
                    assert(fs0[fi as int].folder_name == folder_name@);
                }
            }
        }
        let (expired, current): (bool, Option<String>) = match &folders[fi].share {
            None => (false, None),
            Some(info) => {
                if info.expiry_time <= now {
                    (true, None)
                } else {
                    (false, Some(info.id.clone()))
                }
            },
        };
        if expired {
            let mut f = folders.remove(fi);
            f.share = None;
            folders.insert(fi, f);
            proof {
                let target = fs0.update(fi as int, (FolderV { share: None, ..fs0[fi as int] }));
                assert(folders@ =~= old(folders)@.update(fi as int, folders@[fi as int]));
                assert forall|k: int| 0 <= k < fviews(folders@).len() implies fviews(folders@)[k]
                    == target[k] by {
                    assert(fviews(folders@)[k] == folders@[k]@);
                    assert(fs0[k] == old(folders)@[k]@);
                    if k == fi as int {
                        assert(folders@[k]@ =~~= target[fi as int]);
                    }
                }
                assert(fviews(folders@) =~= target);
                assert forall|ws: Seq<WorldV>| #[trigger] consistent(fs0, ws) implies consistent(
                    fviews(folders@),
                    ws,
                ) by {
                    lemma_consistent_folder_cosmetics(fs0, fviews(folders@), ws);
                }
            }
            Ok(None)
        } else {
            Ok(current)
        }
    }
}

/// The instant thirty days after a share's timestamp (saturating at the
/// far end of the representable range).
pub open spec fn expiry_after_thirty_days(t: i64) -> i64 {
    if t <= i64::MAX - 2592000000 {
        (t + 2592000000) as i64
    } else {
        i64::MAX
    }
}

/// The visit count of a provenance record, absent counting as zero.
pub open spec fn visits_or_zero(a: crate::entities::WorldApiV) -> int {
    match a.visits {
        Some(v) => v as int,
        None => 0,
    }
}

/// Whether incoming provenance beats what the store holds: a strictly
/// newer update stamp, or — on an exact tie — a strictly greater visit
/// count.
pub open spec fn fresher(a: crate::entities::WorldApiV, b: crate::entities::WorldApiV) -> bool {
    a.last_update > b.last_update || (a.last_update == b.last_update && visits_or_zero(a)
        > visits_or_zero(b))
}

/// Appending a visible world with a fresh identifier and an empty ledger
/// keeps the store consistent against any folders.
proof fn lemma_push_world_consistent(fs: Seq<FolderV>, ws: Seq<WorldV>, w: WorldV)
    requires
        consistent(fs, ws),
        !has_world(ws, w.api_data.world_id),
        !w.user_data.hidden,
        w.user_data.folders.len() == 0,
    ensures
        consistent(fs, ws.push(w)),
{
    let ws1 = ws.push(w);
    assert(forall|j: int| 0 <= j < ws.len() ==> #[trigger] ws1[j] == ws[j]);
    assert(ws1.last() == w);
    assert forall|i: int, j: int|
        0 <= i < j < ws1.len() implies (#[trigger] ws1[i]).api_data.world_id != (
    #[trigger] ws1[j]).api_data.world_id by {
        if j == ws1.len() - 1 {
            if ws1[i].api_data.world_id == w.api_data.world_id {
                assert(has_world(ws, w.api_data.world_id));
            }
        }
    }
    assert forall|i: int, k: int|
        0 <= i < fs.len() && 0 <= k < (#[trigger] fs[i]).world_ids.len() implies has_world(
        ws1,
        #[trigger] fs[i].world_ids[k],
    ) by {
        let v = fs[i].world_ids[k];
        assert(has_world(ws, v));
        let j = choose|j: int| 0 <= j < ws.len() && (#[trigger] ws[j]).api_data.world_id == v;
        assert(ws1[j].api_data.world_id == v);
    }
    assert forall|i: int, j: int|
        0 <= i < fs.len() && 0 <= j < ws1.len() && !(#[trigger] ws1[j]).user_data.hidden implies ((
    #[trigger] fs[i]).world_ids.contains(ws1[j].api_data.world_id)
        <==> ws1[j].user_data.folders.contains(fs[i].folder_name)) by {
        if j == ws1.len() - 1 {
            if fs[i].world_ids.contains(w.api_data.world_id) {
                let k = choose|k: int|
                    0 <= k < fs[i].world_ids.len() && fs[i].world_ids[k] == w.api_data.world_id;
                assert(has_world(ws, w.api_data.world_id));
            }
        }
    }
}

impl FolderManager {
    /// Merges a batch of fetched provenance records into the store at
    /// time `now` (milliseconds since the epoch). A record whose world is
    /// already known replaces that world's provenance only where it is
    /// fresher (see [`fresher`]) and stamps the world as just checked; the
    /// user-owned fields are untouched. A record of an unknown world is
    /// appended as a fresh visible entry whose status flags are seeded
    /// from the side-channel override store. The identifiers stay unique
    /// and any folders consistent with the old store are consistent with
    /// the new one.
    #[verifier::rlimit(100)]
    pub fn add_worlds(
        worlds: &mut Vec<WorldModel>,
        new_worlds: Vec<crate::entities::WorldApiData>,
        custom_data: &crate::custom_data::CustomData,
        now: i64,
    ) -> (r: Result<(), AppError>)
        requires
            world_ids_unique(wviews(old(worlds)@)),
            custom_data.wf(),
        ensures
            r is Ok,
            world_ids_unique(wviews(final(worlds)@)),
            forall|fs: Seq<FolderV>|
                #[trigger] consistent(fs, wviews(old(worlds)@)) ==> consistent(
                    fs,
                    wviews(final(worlds)@),
                ),
            old(worlds)@.len() <= final(worlds)@.len() <= old(worlds)@.len() + new_worlds@.len(),
            forall|j: int|
                0 <= j < old(worlds)@.len() ==> {
                    let pre = wviews(old(worlds)@)[j];
                    let post = #[trigger] wviews(final(worlds)@)[j];
                    &&& post.api_data.world_id == pre.api_data.world_id
                    &&& (post.user_data == pre.user_data || post.user_data == (WorldUserV {
                        last_checked: now,
                        ..pre.user_data
                    }))
                    &&& ((exists|b: int|
                        0 <= b < new_worlds@.len() && (#[trigger] new_worlds@[b])@.world_id
                            == pre.api_data.world_id) ==> post.user_data == (WorldUserV {
                        last_checked: now,
                        ..pre.user_data
                    }))
                    &&& (post.api_data == pre.api_data || (fresher(post.api_data, pre.api_data)
                        && exists|b: int|
                        0 <= b < new_worlds@.len() && post.api_data == (
                        #[trigger] new_worlds@[b])@))
                    &&& (forall|b: int|
                        0 <= b < new_worlds@.len() && (#[trigger] new_worlds@[b])@.world_id
                            == pre.api_data.world_id ==> !fresher(new_worlds@[b]@, post.api_data))
                },
            forall|b: int|
                0 <= b < new_worlds@.len() ==> has_world(
                    wviews(final(worlds)@),
                    (#[trigger] new_worlds@[b])@.world_id,
                ),
            forall|j: int|
                old(worlds)@.len() <= j < final(worlds)@.len() ==> {
                    let post = #[trigger] wviews(final(worlds)@)[j];
                    &&& (exists|b: int|
                        0 <= b < new_worlds@.len() && post.api_data == (
                        #[trigger] new_worlds@[b])@)
                    &&& post.user_data == (WorldUserV {
                        date_added: now,
                        last_checked: now,
                        memo: Seq::<char>::empty(),
                        folders: Seq::<Seq<char>>::empty(),
                        hidden: false,
                        is_photographed: crate::custom_data::CustomData::spec_flag(
                            custom_data.world_photographed@,
                            post.api_data.world_id,
                        ),
                        is_shared: crate::custom_data::CustomData::spec_flag(
                            custom_data.world_shared@,
                            post.api_data.world_id,
                        ),
                        is_favorite: crate::custom_data::CustomData::spec_flag(
                            custom_data.world_favorites@,
                            post.api_data.world_id,
                        ),
                    })
                },
    {
        let ghost ws0 = wviews(worlds@);
        let ghost batch0 = new_worlds@;
        let mut batch = new_worlds;
        let ghost mut done: int = 0;
        while batch.len() > 0
            invariant
                custom_data.wf(),
                0 <= done,
                done + batch@.len() == batch0.len(),
                forall|b: int| 0 <= b < batch@.len() ==> #[trigger] batch@[b] == batch0[done + b],
                world_ids_unique(wviews(worlds@)),
                forall|fs: Seq<FolderV>|
                    #[trigger] consistent(fs, ws0) ==> consistent(fs, wviews(worlds@)),
                ws0.len() <= worlds@.len() <= ws0.len() + done,
                forall|j: int|
                    0 <= j < ws0.len() ==> {
                        let pre = ws0[j];
                        let post = #[trigger] wviews(worlds@)[j];
                        &&& post.api_data.world_id == pre.api_data.world_id
                        &&& (post.user_data == pre.user_data || post.user_data == (WorldUserV {
                            last_checked: now,
                            ..pre.user_data
                        }))
                        &&& ((exists|b: int|
                            0 <= b < done && (#[trigger] batch0[b])@.world_id
                                == pre.api_data.world_id) ==> post.user_data == (WorldUserV {
                            last_checked: now,
                            ..pre.user_data
                        }))
                        &&& (post.api_data == pre.api_data || (fresher(post.api_data, pre.api_data)
                            && exists|b: int|
                            0 <= b < batch0.len() && post.api_data == (#[trigger] batch0[b])@))
                        &&& (forall|b: int|
                            0 <= b < done && (#[trigger] batch0[b])@.world_id
                                == pre.api_data.world_id ==> !fresher(batch0[b]@, post.api_data))
                    },
                forall|b: int|
                    0 <= b < done ==> has_world(
                        wviews(worlds@),
                        (#[trigger] batch0[b])@.world_id,
                    ),
                forall|j: int|
                    ws0.len() <= j < worlds@.len() ==> {
                        let post = #[trigger] wviews(worlds@)[j];
                        &&& (exists|b: int|
                            0 <= b < batch0.len() && post.api_data == (#[trigger] batch0[b])@)
                        &&& post.user_data == (WorldUserV {
                            date_added: now,
                            last_checked: now,
                            memo: Seq::<char>::empty(),
                            folders: Seq::<Seq<char>>::empty(),
                            hidden: false,
                            is_photographed: crate::custom_data::CustomData::spec_flag(
                                custom_data.world_photographed@,
                                post.api_data.world_id,
                            ),
                            is_shared: crate::custom_data::CustomData::spec_flag(
                                custom_data.world_shared@,
                                post.api_data.world_id,
                            ),
                            is_favorite: crate::custom_data::CustomData::spec_flag(
                                custom_data.world_favorites@,
                                post.api_data.world_id,
                            ),
                        })
                    },
            decreases batch@.len(),
        {
            let ghost pre_ws = wviews(worlds@);
            let nw = batch.remove(0);
            proof {
                assert(nw == batch0[done]);
                assert(forall|b: int|
                    0 <= b < batch@.len() ==> #[trigger] batch@[b] == batch0[done + 1 + b]);
            }
            match find_world(worlds, &nw.world_id) {
                Some(wi) => {
                    proof {
                        assert(pre_ws[wi as int] == worlds@[wi as int]@);
                    }
                    let replace = {
                        let existing = &worlds[wi];
                        if nw.last_update > existing.api_data.last_update {
                            true
                        } else if nw.last_update == existing.api_data.last_update {
                            let existing_visits: i32 = match existing.api_data.visits {
                                Some(v) => v,
                                None => 0,
                            };
                            let new_visits: i32 = match nw.visits {
                                Some(v) => v,
                                None => 0,
                            };
                            new_visits > existing_visits
                        } else {
                            false
                        }
                    };
                    let ghost nwv = nw@;
                    let ghost pre_vec = worlds@;
                    let mut w = worlds.remove(wi);
                    if replace {
                        w.api_data = nw;
                    }
                    w.user_data.last_checked = now;
                    worlds.insert(wi, w);
                    proof {
                        assert(worlds@ =~= pre_vec.update(wi as int, worlds@[wi as int]));
                        let updated = WorldV {
                            api_data: if replace {
                                nwv
                            } else {
                                pre_ws[wi as int].api_data
                            },
                            user_data: WorldUserV { last_checked: now, ..pre_ws[wi as int].user_data },
                        };
                        assert forall|k: int| 0 <= k < wviews(worlds@).len() implies wviews(
                            worlds@,
                        )[k] == pre_ws.update(wi as int, updated)[k] by {
                            assert(wviews(worlds@)[k] == worlds@[k]@);
                            if k == wi as int {
                                assert(worlds@[k]@ =~~= updated);
                            } else {
                                assert(pre_ws[k] == wviews(worlds@)[k]);
                            }
                        }
                        assert(wviews(worlds@) =~= pre_ws.update(wi as int, updated));
                        assert(updated.api_data.world_id == pre_ws[wi as int].api_data.world_id);
                        assert(forall|j: int|
                            0 <= j < pre_ws.len() ==> (#[trigger] wviews(
                                worlds@,
                            )[j]).api_data.world_id == pre_ws[j].api_data.world_id && wviews(
                                worlds@,
                            )[j].user_data.hidden == pre_ws[j].user_data.hidden && wviews(
                                worlds@,
                            )[j].user_data.folders == pre_ws[j].user_data.folders);
                        assert forall|fs: Seq<FolderV>| #[trigger] consistent(fs, ws0) implies consistent(
                            fs,
                            wviews(worlds@),
                        ) by {
                            assert(consistent(fs, pre_ws));
                            lemma_consistent_user_fields(fs, pre_ws, wviews(worlds@));
                        }
                        assert(has_world(wviews(worlds@), batch0[done]@.world_id)) by {
                            assert(wviews(worlds@)[wi as int].api_data.world_id
                                == nwv.world_id);
                        }
                    }
                },
                None => {
                    let ghost nwv = nw@;
                    let is_favorite = custom_data.is_world_favorite(nw.world_id.as_str());
                    let is_photographed = custom_data.is_world_photographed(nw.world_id.as_str());
                    let is_shared = custom_data.is_world_shared(nw.world_id.as_str());
                    let fresh = WorldModel {
                        api_data: nw,
                        user_data: crate::entities::WorldUserData {
                            date_added: now,
                            last_checked: now,
                            memo: String::new(),
                            folders: Vec::new(),
                            hidden: false,
                            is_photographed,
                            is_shared,
                            is_favorite,
                        },
                    };
                    proof {
                        assert(fresh@.user_data.folders =~= Seq::<Seq<char>>::empty());
                    }
                    worlds.push(fresh);
                    proof {
                        assert(forall|k: int|
                            0 <= k < pre_ws.len() ==> #[trigger] wviews(worlds@)[k] == pre_ws[k]);
                        assert(wviews(worlds@).last() == worlds@.last()@);
                        assert(wviews(worlds@) =~= pre_ws.push(worlds@.last()@));
                        assert forall|fs: Seq<FolderV>| #[trigger] consistent(fs, ws0) implies consistent(
                            fs,
                            wviews(worlds@),
                        ) by {
                            assert(consistent(fs, pre_ws));
                            lemma_push_world_consistent(fs, pre_ws, worlds@.last()@);
                        }
                        assert forall|i: int, j: int|
                            0 <= i < j < wviews(worlds@).len() implies (#[trigger] wviews(
                            worlds@,
                        )[i]).api_data.world_id != (#[trigger] wviews(
                            worlds@,
                        )[j]).api_data.world_id by {
                            if j == wviews(worlds@).len() - 1 {
                                if wviews(worlds@)[i].api_data.world_id == nwv.world_id {
                                    assert(has_world(pre_ws, nwv.world_id));
                                }
                            }
                        }
                        assert(has_world(wviews(worlds@), batch0[done]@.world_id)) by {
                            assert(wviews(worlds@).last().api_data.world_id == nwv.world_id);
                        }
                    }
                },
            }
            proof {
                assert forall|b: int| 0 <= b < done + 1 implies has_world(
                    wviews(worlds@),
                    (#[trigger] batch0[b])@.world_id,
                ) by {
                    if b < done {
                        let j = choose|j: int|
                            0 <= j < pre_ws.len() && (#[trigger] pre_ws[j]).api_data.world_id
                                == batch0[b]@.world_id;
                        assert(wviews(worlds@)[j].api_data.world_id == batch0[b]@.world_id);
                    }
                }
                done = done + 1;
            }
        }
        Ok(())
    }

    /// Adds a batch of worlds to one folder: each listed world that
    /// exists, is visible, and is not already in the folder is appended
    /// to it; unknown identifiers and hidden worlds are skipped. Fails
    /// only when the folder does not exist. Memberships are never removed
    /// by this call: whatever sat in a folder before still does.
    pub fn add_worlds_to_folder(
        folder_name: String,
        world_ids: Vec<String>,
        folders: &mut Vec<FolderModel>,
        worlds: &mut Vec<WorldModel>,
    ) -> (r: Result<(), AppError>)
        requires
            consistent(fviews(old(folders)@), wviews(old(worlds)@)),
        ensures
            consistent(fviews(final(folders)@), wviews(final(worlds)@)),
            (r is Ok) <==> has_folder(fviews(old(folders)@), folder_name@),
            r matches Err(e) ==> (e matches AppError::Entity(EntityError::FolderNotFound(n)) && n@
                == folder_name@) && final(folders)@ == old(folders)@ && final(worlds)@ == old(worlds)@,
            r is Ok ==> forall|i: int, x: Seq<char>|
                0 <= i < fviews(old(folders)@).len() && #[trigger] fviews(
                    old(folders)@,
                )[i].world_ids.contains(x) ==> #[trigger] fviews(
                    final(folders)@,
                )[i].world_ids.contains(x) && fviews(final(folders)@)[i].folder_name == fviews(
                    old(folders)@,
                )[i].folder_name,
            r is Ok ==> fviews(final(folders)@).len() == fviews(old(folders)@).len(),
            r is Ok ==> forall|i: int|
                0 <= i < fviews(old(folders)@).len() && (#[trigger] fviews(
                    old(folders)@,
                )[i]).folder_name != folder_name@ ==> fviews(final(folders)@)[i] == fviews(
                    old(folders)@,
                )[i],
            r is Ok ==> forall|i: int|
                0 <= i < fviews(old(folders)@).len() && (#[trigger] fviews(
                    old(folders)@,
                )[i]).folder_name == folder_name@ ==> appended_listed_members(
                    fviews(old(folders)@)[i].world_ids,
                    fviews(final(folders)@)[i].world_ids,
                    world_ids.deep_view(),
                ),
            r is Ok ==> wviews(final(worlds)@).len() == wviews(old(worlds)@).len(),
            r is Ok ==> forall|j: int|
                0 <= j < wviews(old(worlds)@).len() && !world_ids.deep_view().contains(
                    (#[trigger] wviews(old(worlds)@)[j]).api_data.world_id,
                ) ==> wviews(final(worlds)@)[j] == wviews(old(worlds)@)[j],
            r is Ok ==> forall|j: int|
                0 <= j < wviews(old(worlds)@).len() ==> {
                    let pre = wviews(old(worlds)@)[j];
                    let post = #[trigger] wviews(final(worlds)@)[j];
                    post == pre || post == world_with_ledger_name(pre, folder_name@)
                },
            r is Ok ==> forall|k: int, wi: int|
                0 <= k < world_ids@.len() && 0 <= wi < wviews(final(worlds)@).len() && (
                #[trigger] wviews(final(worlds)@)[wi]).api_data.world_id == (
                #[trigger] world_ids@[k])@ && !wviews(final(worlds)@)[wi].user_data.hidden
                    ==> exists|fi: int|
                    0 <= fi < fviews(final(folders)@).len() && (#[trigger] fviews(
                        final(folders)@,
                    )[fi]).folder_name == folder_name@ && fviews(
                        final(folders)@,
                    )[fi].world_ids.contains(world_ids@[k]@),
    {
        match find_folder(folders, &folder_name) {
            None => {
                return Err(AppError::Entity(EntityError::FolderNotFound(folder_name)));
            },
            Some(fi_seen) => {
                proof {
                    assert(fviews(folders@)[fi_seen as int] == folders@[fi_seen as int]@);
                    assert(has_folder(fviews(folders@), folder_name@));
                }
            },
        }
        let ghost fs0 = fviews(folders@);
        let ghost ws0 = wviews(worlds@);
        proof {
            assert forall|i: int| 0 <= i < fs0.len() implies appended_listed_members(
                (#[trigger] fs0[i]).world_ids,
                fs0[i].world_ids,
                world_ids.deep_view(),
            ) by {
                assert(fs0[i].world_ids.subrange(0, fs0[i].world_ids.len() as int)
                    =~= fs0[i].world_ids);
            }
        }
        let mut k: usize = 0;
        while k < world_ids.len()
            invariant
                0 <= k <= world_ids@.len(),
                consistent(fviews(folders@), wviews(worlds@)),
                has_folder(fs0, folder_name@),
                fviews(folders@).len() == fs0.len(),
                wviews(worlds@).len() == ws0.len(),
                forall|j: int|
                    0 <= j < ws0.len() ==> (#[trigger] wviews(worlds@)[j]).api_data.world_id
                        == ws0[j].api_data.world_id && wviews(worlds@)[j].user_data.hidden
                        == ws0[j].user_data.hidden,
                forall|i: int, x: Seq<char>|
                    0 <= i < fs0.len() && #[trigger] fs0[i].world_ids.contains(x)
                        ==> #[trigger] fviews(folders@)[i].world_ids.contains(x),
                forall|i: int|
                    0 <= i < fs0.len() ==> (#[trigger] fviews(folders@)[i]).folder_name
                        == fs0[i].folder_name,
                forall|i: int|
                    0 <= i < fs0.len() && (#[trigger] fs0[i]).folder_name != folder_name@
                        ==> fviews(folders@)[i] == fs0[i],
                forall|i: int|
                    0 <= i < fs0.len() && (#[trigger] fs0[i]).folder_name == folder_name@
                        ==> appended_listed_members(
                        fs0[i].world_ids,
                        fviews(folders@)[i].world_ids,
                        world_ids.deep_view(),
                    ),
                forall|j: int|
                    0 <= j < ws0.len() && !world_ids.deep_view().contains(
                        (#[trigger] ws0[j]).api_data.world_id,
                    ) ==> wviews(worlds@)[j] == ws0[j],
                forall|j: int|
                    0 <= j < ws0.len() ==> (#[trigger] wviews(worlds@)[j] == ws0[j] || wviews(
                        worlds@,
                    )[j] == world_with_ledger_name(ws0[j], folder_name@)),
                forall|a: int, wi: int|
                    0 <= a < k && 0 <= wi < wviews(worlds@).len() && (#[trigger] wviews(
                        worlds@,
                    )[wi]).api_data.world_id == (#[trigger] world_ids@[a])@ && !wviews(
                        worlds@,
                    )[wi].user_data.hidden ==> exists|fi: int|
                        0 <= fi < fviews(folders@).len() && (#[trigger] fviews(
                            folders@,
                        )[fi]).folder_name == folder_name@ && fviews(
                            folders@,
                        )[fi].world_ids.contains(world_ids@[a]@),
            decreases world_ids@.len() - k,
        {
            let ghost pre_fs = fviews(folders@);
            let ghost pre_ws = wviews(worlds@);
            let id = world_ids[k].clone();
            proof {
                assert(vstd::pervasive::cloned::<String>(world_ids@[k as int], id));
            }
            let step = Self::add_world_to_folder(folder_name.clone(), id, folders, worlds);
            proof {
                let fs1 = fviews(folders@);
                let ws1 = wviews(worlds@);
                let name = folder_name@;
                let wid = world_ids@[k as int]@;
                assert(has_folder(pre_fs, name)) by {
                    let fi0 = choose|fi0: int|
                        0 <= fi0 < fs0.len() && (#[trigger] fs0[fi0]).folder_name == name;
                    assert(pre_fs[fi0].folder_name == name);
                }
                assert(fs1 == pre_fs && ws1 == pre_ws || (exists|fi: int, wi: int|
                    0 <= fi < pre_fs.len() && (#[trigger] pre_fs[fi]).folder_name == name && 0 <= wi
                        < pre_ws.len() && (#[trigger] pre_ws[wi]).api_data.world_id == wid
                        && add_world_post(pre_fs, pre_ws, fs1, ws1, fi, wi))) by {
                    if !(fs1 == pre_fs && ws1 == pre_ws) {
                        assert(step is Ok);
                        assert(has_world(pre_ws, wid));
                        let fi = choose|fi: int|
                            0 <= fi < pre_fs.len() && (#[trigger] pre_fs[fi]).folder_name == name;
                        let wi = choose|wi: int|
                            0 <= wi < pre_ws.len() && (#[trigger] pre_ws[wi]).api_data.world_id
                                == wid;
                        assert(add_world_post(pre_fs, pre_ws, fs1, ws1, fi, wi));
                    }
                }
                lemma_add_step_monotone(pre_fs, pre_ws, fs1, ws1, name, wid);
                assert forall|i: int, x: Seq<char>|
                    0 <= i < fs0.len() && #[trigger] fs0[i].world_ids.contains(x) implies #[trigger] fs1[i].world_ids.contains(
                    x,
                ) by {
                    assert(pre_fs[i].world_ids.contains(x));
                }
                assert(world_ids.deep_view().contains(wid)) by {
                    assert(world_ids.deep_view()[k as int] == world_ids@[k as int]@);
                }
                if !(fs1 == pre_fs && ws1 == pre_ws) {
                    let (fi, wi) = choose|fi: int, wi: int|
                        0 <= fi < pre_fs.len() && (#[trigger] pre_fs[fi]).folder_name == name && 0
                            <= wi < pre_ws.len() && (#[trigger] pre_ws[wi]).api_data.world_id
                            == wid && add_world_post(pre_fs, pre_ws, fs1, ws1, fi, wi);
                    assert(!pre_ws[wi].user_data.folders.contains(name)) by {
                        if pre_ws[wi].user_data.folders.contains(name) {
                            assert(fs1 == pre_fs && ws1 == pre_ws);
                        }
                    }
                    // The named folder only appends the listed, absent id;
                    // every other folder is untouched.
                    assert forall|i: int|
                        0 <= i < fs0.len() && (#[trigger] fs0[i]).folder_name != folder_name@
                        implies fs1[i] == fs0[i] by {
                        assert(i != fi);
                        assert(fs1[i] == pre_fs[i]);
                    }
                    assert forall|i: int|
                        0 <= i < fs0.len() && (#[trigger] fs0[i]).folder_name == folder_name@
                        implies appended_listed_members(
                        fs0[i].world_ids,
                        fs1[i].world_ids,
                        world_ids.deep_view(),
                    ) by {
                        if i == fi {
                            assert(fs1[fi].world_ids == pre_fs[fi].world_ids.push(wid));
                            assert(!pre_fs[fi].world_ids.contains(wid)) by {
                                // A visible world outside the ledger is
                                // outside the folder.
                                assert(!pre_ws[wi].user_data.hidden);
                            }
                            assert(!fs0[i].world_ids.contains(wid)) by {
                                if fs0[i].world_ids.contains(wid) {
                                    assert(pre_fs[i].world_ids.contains(wid));
                                }
                            }
                            assert(fs1[i].world_ids.subrange(0, fs0[i].world_ids.len() as int)
                                =~= fs0[i].world_ids) by {
                                assert(pre_fs[i].world_ids.subrange(
                                    0,
                                    fs0[i].world_ids.len() as int,
                                ) == fs0[i].world_ids);
                            }
                            assert forall|m: int|
                                fs0[i].world_ids.len() <= m < fs1[i].world_ids.len()
                                implies world_ids.deep_view().contains(
                                #[trigger] fs1[i].world_ids[m],
                            ) && !fs0[i].world_ids.contains(fs1[i].world_ids[m]) by {
                                if m < fs1[i].world_ids.len() - 1 {
                                    assert(fs1[i].world_ids[m] == pre_fs[i].world_ids[m]);
                                }
                            }
                        } else {
                            assert(fs1[i] == pre_fs[i]);
                        }
                    }
                    // Only the matched, listed world changes, and only by
                    // the appended name.
                    assert forall|j: int|
                        0 <= j < ws0.len() && !world_ids.deep_view().contains(
                            (#[trigger] ws0[j]).api_data.world_id,
                        ) implies ws1[j] == ws0[j] by {
                        assert(j != wi);
                        assert(ws1[j] == pre_ws[j]);
                    }
                    assert forall|j: int|
                        0 <= j < ws0.len() implies (#[trigger] ws1[j] == ws0[j] || ws1[j]
                        == world_with_ledger_name(ws0[j], folder_name@)) by {
                        if j == wi {
                            assert(ws1[wi] == world_with_ledger_name(pre_ws[wi], name));
                            assert(pre_ws[wi] == ws0[wi]) by {
                                if pre_ws[wi] != ws0[wi] {
                                    assert(pre_ws[wi] == world_with_ledger_name(
                                        ws0[wi],
                                        folder_name@,
                                    ));
                                    assert(pre_ws[wi].user_data.folders.last() == name);
                                    assert(pre_ws[wi].user_data.folders.contains(name));
                                }
                            }
                        } else {
                            assert(ws1[j] == pre_ws[j]);
                        }
                    }
                }
                assert forall|a: int, wi2: int|
                    0 <= a < k + 1 && 0 <= wi2 < ws1.len() && (#[trigger] ws1[wi2]).api_data.world_id
                        == (#[trigger] world_ids@[a])@ && !ws1[wi2].user_data.hidden implies exists|
                    fi: int,
                |
                    0 <= fi < fs1.len() && (#[trigger] fs1[fi]).folder_name == name
                        && fs1[fi].world_ids.contains(world_ids@[a]@) by {
                    if a < k as int {
                        assert(pre_ws[wi2].api_data.world_id == world_ids@[a]@);
                        assert(!pre_ws[wi2].user_data.hidden);
                        let fi = choose|fi: int|
                            0 <= fi < pre_fs.len() && (#[trigger] pre_fs[fi]).folder_name == name
                                && pre_fs[fi].world_ids.contains(world_ids@[a]@);
                        assert(fs1[fi].folder_name == name && fs1[fi].world_ids.contains(
                            world_ids@[a]@,
                        ));
                    } else {
                        // The id just processed: the world is visible, so
                        // the step either found it already in the folder or
                        // appended it.
                        assert(pre_ws[wi2].api_data.world_id == wid);
                        assert(!pre_ws[wi2].user_data.hidden);
                        if fs1 == pre_fs && ws1 == pre_ws {
                            let fi = choose|fi: int|
                                0 <= fi < pre_fs.len() && (#[trigger] pre_fs[fi]).folder_name
                                    == name;
                            assert(has_world(pre_ws, wid));
                            let wi = choose|wi: int|
                                0 <= wi < pre_ws.len() && (#[trigger] pre_ws[wi]).api_data.world_id
                                    == wid;
                            assert(wi == wi2) by {
                                if wi != wi2 {
                                    assert(world_ids_unique(pre_ws));
                                }
                            }
                            assert(add_world_post(pre_fs, pre_ws, fs1, ws1, fi, wi) || pre_ws[wi].user_data.folders.contains(
                                name,
                            ) || pre_ws[wi].user_data.hidden) by {
                                if !pre_ws[wi].user_data.folders.contains(name)
                                    && !pre_ws[wi].user_data.hidden {
                                    assert(step is Ok && add_world_post(
                                        pre_fs,
                                        pre_ws,
                                        fs1,
                                        ws1,
                                        fi,
                                        wi,
                                    ));
                                }
                            }
                            if pre_ws[wi].user_data.folders.contains(name) {
                                // Already in the ledger; the visible
                                // world's folder then lists it.
                                assert(pre_fs[fi].world_ids.contains(wid));
                                assert(fs1[fi].folder_name == name);
                            } else {
                                assert(!pre_ws[wi].user_data.hidden);
                                // add_world_post with an unchanged store
                                // and a missing ledger entry would have
                                // pushed: contradiction resolves to the
                                // ledger case above.
                                assert(add_world_post(pre_fs, pre_ws, fs1, ws1, fi, wi));
                                assert(fs1[fi].world_ids.contains(wid)) by {
                                    assert(fs1 == pre_fs.update(
                                        fi,
                                        folder_with_id(pre_fs[fi], wid),
                                    ));
                                    assert(fs1[fi].world_ids.last() == wid);
                                }
                            }
                        } else {
                            let (fi, wi) = choose|fi: int, wi: int|
                                0 <= fi < pre_fs.len() && (#[trigger] pre_fs[fi]).folder_name
                                    == name && 0 <= wi < pre_ws.len() && (
                                #[trigger] pre_ws[wi]).api_data.world_id == wid && add_world_post(
                                    pre_fs,
                                    pre_ws,
                                    fs1,
                                    ws1,
                                    fi,
                                    wi,
                                );
                            assert(!pre_ws[wi].user_data.folders.contains(name)) by {
                                if pre_ws[wi].user_data.folders.contains(name) {
                                    assert(fs1 == pre_fs && ws1 == pre_ws);
                                }
                            }
                            assert(fs1 == pre_fs.update(fi, folder_with_id(pre_fs[fi], wid)));
                            assert(fs1[fi].folder_name == name);
                            assert(fs1[fi].world_ids.last() == wid);
                            assert(fs1[fi].world_ids.contains(wid));
                        }
                    }
                }
            }
            k = k + 1;
        }
        proof {
            assert forall|a: int, wi: int|
                0 <= a < world_ids@.len() && 0 <= wi < wviews(worlds@).len() && (#[trigger] wviews(
                    worlds@,
                )[wi]).api_data.world_id == (#[trigger] world_ids@[a])@ && !wviews(
                    worlds@,
                )[wi].user_data.hidden implies exists|fi: int|
                0 <= fi < fviews(folders@).len() && (#[trigger] fviews(
                    folders@,
                )[fi]).folder_name == folder_name@ && fviews(folders@)[fi].world_ids.contains(
                    world_ids@[a]@,
                ) by {}
        }
        Ok(())
    }
}

/// Whether a member list grew only by appending, at its end, identifiers
/// drawn from the given batch that it did not hold before.
pub open spec fn appended_listed_members(
    pre: Seq<Seq<char>>,
    post: Seq<Seq<char>>,
    listed: Seq<Seq<char>>,
) -> bool {
    post.len() >= pre.len() && post.subrange(0, pre.len() as int) == pre && (forall|k: int|
        pre.len() <= k < post.len() ==> listed.contains(#[trigger] post[k]) && !pre.contains(
            post[k],
        ))
}

/// What one add step guarantees to the batch operation: the step never
/// drops a membership or renames a folder, never changes a world's
/// identifier, hidden flag or position, and where the named world exists
/// and is visible it ends up in the named folder.
proof fn lemma_add_step_monotone(
    fs0: Seq<FolderV>,
    ws0: Seq<WorldV>,
    fs1: Seq<FolderV>,
    ws1: Seq<WorldV>,
    name: Seq<char>,
    id: Seq<char>,
)
    requires
        consistent(fs0, ws0),
        fs1 == fs0 && ws1 == ws0 || (exists|fi: int, wi: int|
            0 <= fi < fs0.len() && (#[trigger] fs0[fi]).folder_name == name && 0 <= wi < ws0.len()
                && (#[trigger] ws0[wi]).api_data.world_id == id && add_world_post(
                fs0,
                ws0,
                fs1,
                ws1,
                fi,
                wi,
            )),
    ensures
        fs1.len() == fs0.len(),
        ws1.len() == ws0.len(),
        forall|j: int|
            0 <= j < ws0.len() ==> (#[trigger] ws1[j]).api_data.world_id
                == ws0[j].api_data.world_id && ws1[j].user_data.hidden == ws0[j].user_data.hidden,
        forall|i: int| 0 <= i < fs0.len() ==> (#[trigger] fs1[i]).folder_name == fs0[i].folder_name,
        forall|i: int, x: Seq<char>|
            0 <= i < fs0.len() && #[trigger] fs0[i].world_ids.contains(x) ==> #[trigger] fs1[i].world_ids.contains(
                x,
            ),
{
    if !(fs1 == fs0 && ws1 == ws0) {
        let (fi, wi) = choose|fi: int, wi: int|
            0 <= fi < fs0.len() && (#[trigger] fs0[fi]).folder_name == name && 0 <= wi < ws0.len()
                && (#[trigger] ws0[wi]).api_data.world_id == id && add_world_post(
                fs0,
                ws0,
                fs1,
                ws1,
                fi,
                wi,
            );
        if !ws0[wi].user_data.folders.contains(fs0[fi].folder_name) {
            assert forall|i: int, x: Seq<char>|
                0 <= i < fs0.len() && #[trigger] fs0[i].world_ids.contains(x) implies #[trigger] fs1[i].world_ids.contains(
                x,
            ) by {
                if i == fi {
                    let m = choose|m: int|
                        0 <= m < fs0[i].world_ids.len() && fs0[i].world_ids[m] == x;
                    assert(fs1[i].world_ids[m] == x);
                }
            }
        }
    }
}

/// The names of the folders listing an identifier, in folder order: what
/// loading rebuilds each world's ledger from, the folder file being the
/// authoritative record of membership.
pub open spec fn folders_listing(fs: Seq<FolderV>, id: Seq<char>) -> Seq<Seq<char>>
    decreases fs.len(),
{
    if fs.len() == 0 {
        Seq::<Seq<char>>::empty()
    } else {
        let rest = folders_listing(fs.drop_last(), id);
        if fs.last().world_ids.contains(id) {
            rest.push(fs.last().folder_name)
        } else {
            rest
        }
    }
}

/// What the rebuilt ledger holds: exactly the names of the folders
/// listing the identifier, each once (names being unique).
pub proof fn lemma_folders_listing(fs: Seq<FolderV>, id: Seq<char>)
    ensures
        forall|nm: Seq<char>|
            #[trigger] folders_listing(fs, id).contains(nm) == (exists|i: int|
                0 <= i < fs.len() && (#[trigger] fs[i]).folder_name == nm
                    && fs[i].world_ids.contains(id)),
        folder_names_unique(fs) ==> no_dup(folders_listing(fs, id)),
    decreases fs.len(),
{
    let s2 = folders_listing(fs, id);
    if fs.len() == 0 {
        assert forall|nm: Seq<char>| #[trigger] s2.contains(nm) == (exists|i: int|
            0 <= i < fs.len() && (#[trigger] fs[i]).folder_name == nm && fs[i].world_ids.contains(
                id,
            )) by {
            if s2.contains(nm) {
                let k = choose|k: int| 0 <= k < s2.len() && s2[k] == nm;
            }
        }
    } else {
        let t = fs.drop_last();
        lemma_folders_listing(t, id);
        let r = folders_listing(t, id);
        assert(forall|a: int| 0 <= a < t.len() ==> #[trigger] t[a] == fs[a]);
        assert forall|nm: Seq<char>| #[trigger] s2.contains(nm) == (exists|i: int|
            0 <= i < fs.len() && (#[trigger] fs[i]).folder_name == nm && fs[i].world_ids.contains(
                id,
            )) by {
            if s2.contains(nm) {
                let k = choose|k: int| 0 <= k < s2.len() && s2[k] == nm;
                if fs.last().world_ids.contains(id) && k == s2.len() - 1 {
                    assert(fs[fs.len() - 1].folder_name == nm);
                } else {
                    assert(r[k] == nm);
                    assert(r.contains(nm));
                    let i = choose|i: int|
                        0 <= i < t.len() && (#[trigger] t[i]).folder_name == nm
                            && t[i].world_ids.contains(id);
                    assert(fs[i].folder_name == nm && fs[i].world_ids.contains(id));
                }
            }
            if exists|i: int|
                0 <= i < fs.len() && (#[trigger] fs[i]).folder_name == nm
                    && fs[i].world_ids.contains(id) {
                let i = choose|i: int|
                    0 <= i < fs.len() && (#[trigger] fs[i]).folder_name == nm
                        && fs[i].world_ids.contains(id);
                if i == fs.len() - 1 {
                    assert(s2.last() == nm);
                    assert(s2.contains(nm));
                } else {
                    assert(t[i].folder_name == nm && t[i].world_ids.contains(id));
                    assert(r.contains(nm));
                    let k = choose|k: int| 0 <= k < r.len() && r[k] == nm;
                    if fs.last().world_ids.contains(id) {
                        assert(s2[k] == nm);
                    } else {
                        assert(s2[k] == nm);
                    }
                    assert(s2.contains(nm));
                }
            }
        }
        if folder_names_unique(fs) {
            assert(folder_names_unique(t));
            assert forall|a: int, b: int| 0 <= a < b < s2.len() implies s2[a] != s2[b] by {
                if fs.last().world_ids.contains(id) && b == s2.len() - 1 {
                    assert(r[a] == s2[a]);
                    assert(r.contains(s2[a]));
                    let i = choose|i: int|
                        0 <= i < t.len() && (#[trigger] t[i]).folder_name == s2[a]
                            && t[i].world_ids.contains(id);
                    assert(fs[i].folder_name == s2[a]);
                    assert(fs[i].folder_name != fs.last().folder_name);
                }
            }
        }
    }
}

/// Rebuilding every ledger from a well-formed folder list leaves the
/// store consistent: the ledgers then agree with the live memberships by
/// construction.
proof fn lemma_rebuild_consistent(fs: Seq<FolderV>, ws0: Seq<WorldV>, ws1: Seq<WorldV>)
    requires
        folder_names_unique(fs),
        world_ids_unique(ws0),
        forall|i: int| 0 <= i < fs.len() ==> no_dup((#[trigger] fs[i]).world_ids),
        forall|i: int, k: int|
            0 <= i < fs.len() && 0 <= k < (#[trigger] fs[i]).world_ids.len() ==> has_world(
                ws0,
                #[trigger] fs[i].world_ids[k],
            ),
        forall|i: int, j: int|
            0 <= i < fs.len() && 0 <= j < ws0.len() && (#[trigger] ws0[j]).user_data.hidden ==> !(
            #[trigger] fs[i]).world_ids.contains(ws0[j].api_data.world_id),
        ws1.len() == ws0.len(),
        forall|j: int|
            0 <= j < ws0.len() ==> #[trigger] ws1[j] == (WorldV {
                user_data: WorldUserV {
                    folders: folders_listing(fs, ws0[j].api_data.world_id),
                    ..ws0[j].user_data
                },
                ..ws0[j]
            }),
    ensures
        consistent(fs, ws1),
{
    assert forall|j: int| 0 <= j < ws1.len() implies no_dup((#[trigger] ws1[j]).user_data.folders) by {
        lemma_folders_listing(fs, ws0[j].api_data.world_id);
    }
    assert forall|i: int, k: int|
        0 <= i < fs.len() && 0 <= k < (#[trigger] fs[i]).world_ids.len() implies has_world(
        ws1,
        #[trigger] fs[i].world_ids[k],
    ) by {
        let v = fs[i].world_ids[k];
        assert(has_world(ws0, v));
        let j = choose|j: int| 0 <= j < ws0.len() && (#[trigger] ws0[j]).api_data.world_id == v;
        assert(ws1[j].api_data.world_id == v);
    }
    assert forall|i: int, j: int|
        0 <= i < fs.len() && 0 <= j < ws1.len() && (#[trigger] ws1[j]).user_data.hidden implies !(
    #[trigger] fs[i]).world_ids.contains(ws1[j].api_data.world_id) by {
        assert(ws1[j].api_data.world_id == ws0[j].api_data.world_id);
        assert(ws1[j].user_data.hidden == ws0[j].user_data.hidden);
    }
    assert forall|i: int, j: int|
        0 <= i < fs.len() && 0 <= j < ws1.len() && !(#[trigger] ws1[j]).user_data.hidden implies ((
    #[trigger] fs[i]).world_ids.contains(ws1[j].api_data.world_id)
        <==> ws1[j].user_data.folders.contains(fs[i].folder_name)) by {
        let id = ws0[j].api_data.world_id;
        lemma_folders_listing(fs, id);
        if fs[i].world_ids.contains(id) {
            assert(ws1[j].user_data.folders.contains(fs[i].folder_name));
        }
        if ws1[j].user_data.folders.contains(fs[i].folder_name) {
            let i2 = choose|i2: int|
                0 <= i2 < fs.len() && (#[trigger] fs[i2]).folder_name == fs[i].folder_name
                    && fs[i2].world_ids.contains(id);
            assert(i2 == i) by {
                if i2 != i {
                    assert(folder_names_unique(fs));
                }
            }
        }
    }
    assert forall|j: int, n: int|
        0 <= j < ws1.len() && !(#[trigger] ws1[j]).user_data.hidden && 0 <= n < ws1[j].user_data.folders.len()
        implies has_folder(fs, #[trigger] ws1[j].user_data.folders[n]) by {
        let id = ws0[j].api_data.world_id;
        lemma_folders_listing(fs, id);
        let nm = ws1[j].user_data.folders[n];
        assert(ws1[j].user_data.folders.contains(nm));
        let i = choose|i: int|
            0 <= i < fs.len() && (#[trigger] fs[i]).folder_name == nm && fs[i].world_ids.contains(
                id,
            );
    }
}

impl FolderManager {
    /// Rebuilds every world's ledger from the folder side, the record of
    /// membership the folder file carries: each world's ledger becomes
    /// exactly the names of the folders listing its identifier, in folder
    /// order, and nothing else about any world changes. Given well-formed
    /// folders (unique names, duplicate-free member lists naming existing
    /// visible worlds) the rebuilt store is consistent. Loading runs this
    /// after both files are read.
    pub fn rebuild_ledgers(folders: &Vec<FolderModel>, worlds: &mut Vec<WorldModel>)
        requires
            folder_names_unique(fviews(folders@)),
            world_ids_unique(wviews(old(worlds)@)),
            forall|i: int|
                0 <= i < fviews(folders@).len() ==> no_dup(
                    (#[trigger] fviews(folders@)[i]).world_ids,
                ),
            forall|i: int, k: int|
                0 <= i < fviews(folders@).len() && 0 <= k < (#[trigger] fviews(
                    folders@,
                )[i]).world_ids.len() ==> has_world(
                    wviews(old(worlds)@),
                    #[trigger] fviews(folders@)[i].world_ids[k],
                ),
            forall|i: int, j: int|
                0 <= i < fviews(folders@).len() && 0 <= j < wviews(old(worlds)@).len() && (
                #[trigger] wviews(old(worlds)@)[j]).user_data.hidden ==> !(#[trigger] fviews(
                    folders@,
                )[i]).world_ids.contains(wviews(old(worlds)@)[j].api_data.world_id),
        ensures
            final(worlds)@.len() == old(worlds)@.len(),
            forall|j: int|
                0 <= j < old(worlds)@.len() ==> #[trigger] wviews(final(worlds)@)[j] == (WorldV {
                    user_data: WorldUserV {
                        folders: folders_listing(
                            fviews(folders@),
                            wviews(old(worlds)@)[j].api_data.world_id,
                        ),
                        ..wviews(old(worlds)@)[j].user_data
                    },
                    ..wviews(old(worlds)@)[j]
                }),
            consistent(fviews(folders@), wviews(final(worlds)@)),
    {
        let ghost fs = fviews(folders@);
        let ghost ws0 = wviews(worlds@);
        let mut j: usize = 0;
        while j < worlds.len()
            invariant
                0 <= j <= worlds@.len(),
                worlds@.len() == ws0.len(),
                fs == fviews(folders@),
                forall|k: int|
                    0 <= k < j ==> #[trigger] wviews(worlds@)[k] == (WorldV {
                        user_data: WorldUserV {
                            folders: folders_listing(fs, ws0[k].api_data.world_id),
                            ..ws0[k].user_data
                        },
                        ..ws0[k]
                    }),
                forall|k: int| j <= k < ws0.len() ==> #[trigger] wviews(worlds@)[k] == ws0[k],
            decreases worlds@.len() - j,
        {
            let ghost pre = wviews(worlds@);
            let ghost id = ws0[j as int].api_data.world_id;
            // Collect the names of the folders listing this world.
            let mut ledger: Vec<String> = Vec::new();
            let mut i: usize = 0;
            proof {
                assert(fs.subrange(0, 0) =~= Seq::<FolderV>::empty());
                assert(ledger.deep_view() =~= folders_listing(fs.subrange(0, 0), id));
                assert(wviews(worlds@)[j as int] == worlds@[j as int]@);
            }
            while i < folders.len()
                invariant
                    0 <= i <= folders@.len(),
                    fs == fviews(folders@),
                    fs.len() == folders@.len(),
                    j < worlds@.len(),
                    worlds@.len() == ws0.len(),
                    id == ws0[j as int].api_data.world_id,
                    wviews(worlds@)[j as int] == ws0[j as int],
                    worlds@[j as int]@ == ws0[j as int],
                    ledger.deep_view() == folders_listing(fs.subrange(0, i as int), id),
                decreases folders@.len() - i,
            {
                proof {
                    assert(fs.subrange(0, i + 1).drop_last() =~= fs.subrange(0, i as int));
                    assert(fs.subrange(0, i + 1).last() == fs[i as int]);
                    assert(fs[i as int] == folders@[i as int]@);
                }
                let listed = crate::text::vec_contains_string(
                    &folders[i].world_ids,
                    &worlds[j].api_data.world_id,
                );
                proof {
                    crate::entities::lemma_contains_string_deep_view(
                        folders@[i as int].world_ids,
                        worlds@[j as int].api_data.world_id@,
                    );
                    assert(listed == fs[i as int].world_ids.contains(id));
                }
                if listed {
                    ledger.push(folders[i].folder_name.clone());
                    proof {
                        assert(vstd::pervasive::cloned::<String>(
                            folders@[i as int].folder_name,
                            ledger@[ledger@.len() - 1],
                        ));
                        assert(ledger.deep_view() =~= folders_listing(
                            fs.subrange(0, i + 1),
                            id,
                        ));
                    }
                }
                i = i + 1;
            }
            proof {
                assert(fs.subrange(0, fs.len() as int) =~= fs);
            }
            world_set_ledger(worlds, j, ledger);
            proof {
                assert forall|k: int| 0 <= k < j + 1 implies #[trigger] wviews(worlds@)[k] == (
                WorldV {
                    user_data: WorldUserV {
                        folders: folders_listing(fs, ws0[k].api_data.world_id),
                        ..ws0[k].user_data
                    },
                    ..ws0[k]
                }) by {
                    if k < j as int {
                        assert(wviews(worlds@)[k] == pre[k]);
                    } else {
                        assert(wviews(worlds@)[k] =~~= (WorldV {
                            user_data: WorldUserV {
                                folders: folders_listing(fs, ws0[k].api_data.world_id),
                                ..ws0[k].user_data
                            },
                            ..ws0[k]
                        }));
                    }
                }
                assert forall|k: int| j + 1 <= k < ws0.len() implies #[trigger] wviews(
                    worlds@,
                )[k] == ws0[k] by {
                    assert(wviews(worlds@)[k] == pre[k]);
                }
            }
            j = j + 1;
        }
        proof {
            lemma_rebuild_consistent(fs, ws0, wviews(worlds@));
        }
    }

    /// Applies the side-channel overrides to every world: the favorite,
    /// photographed and shared flags each become what the override store
    /// records for the world's identifier; nothing else changes, and any
    /// folders consistent with the worlds stay consistent. Loading runs
    /// this after the ledgers are rebuilt.
    pub fn apply_status_overrides(
        worlds: &mut Vec<WorldModel>,
        custom_data: &crate::custom_data::CustomData,
    )
        requires
            custom_data.wf(),
        ensures
            final(worlds)@.len() == old(worlds)@.len(),
            forall|j: int|
                0 <= j < old(worlds)@.len() ==> #[trigger] wviews(final(worlds)@)[j] == (WorldV {
                    user_data: WorldUserV {
                        is_favorite: crate::custom_data::CustomData::spec_flag(
                            custom_data.world_favorites@,
                            wviews(old(worlds)@)[j].api_data.world_id,
                        ),
                        is_photographed: crate::custom_data::CustomData::spec_flag(
                            custom_data.world_photographed@,
                            wviews(old(worlds)@)[j].api_data.world_id,
                        ),
                        is_shared: crate::custom_data::CustomData::spec_flag(
                            custom_data.world_shared@,
                            wviews(old(worlds)@)[j].api_data.world_id,
                        ),
                        ..wviews(old(worlds)@)[j].user_data
                    },
                    ..wviews(old(worlds)@)[j]
                }),
            forall|fs: Seq<FolderV>|
                #[trigger] consistent(fs, wviews(old(worlds)@)) ==> consistent(
                    fs,
                    wviews(final(worlds)@),
                ),
    {
        let ghost ws0 = wviews(worlds@);
        let mut j: usize = 0;
        while j < worlds.len()
            invariant
                0 <= j <= worlds@.len(),
                worlds@.len() == ws0.len(),
                custom_data.wf(),
                forall|k: int|
                    0 <= k < j ==> #[trigger] wviews(worlds@)[k] == (WorldV {
                        user_data: WorldUserV {
                            is_favorite: crate::custom_data::CustomData::spec_flag(
                                custom_data.world_favorites@,
                                ws0[k].api_data.world_id,
                            ),
                            is_photographed: crate::custom_data::CustomData::spec_flag(
                                custom_data.world_photographed@,
                                ws0[k].api_data.world_id,
                            ),
                            is_shared: crate::custom_data::CustomData::spec_flag(
                                custom_data.world_shared@,
                                ws0[k].api_data.world_id,
                            ),
                            ..ws0[k].user_data
                        },
                        ..ws0[k]
                    }),
                forall|k: int| j <= k < ws0.len() ==> #[trigger] wviews(worlds@)[k] == ws0[k],
            decreases worlds@.len() - j,
        {
            let ghost pre = wviews(worlds@);
            let ghost pre_vec = worlds@;
            let is_favorite = custom_data.is_world_favorite(worlds[j].api_data.world_id.as_str());
            let is_photographed = custom_data.is_world_photographed(
                worlds[j].api_data.world_id.as_str(),
            );
            let is_shared = custom_data.is_world_shared(worlds[j].api_data.world_id.as_str());
            let mut w = worlds.remove(j);
            w.user_data.is_favorite = is_favorite;
            w.user_data.is_photographed = is_photographed;
            w.user_data.is_shared = is_shared;
            worlds.insert(j, w);
            proof {
                assert(worlds@ =~= pre_vec.update(j as int, worlds@[j as int]));
                assert forall|k: int| 0 <= k < j + 1 implies #[trigger] wviews(worlds@)[k] == (
                WorldV {
                    user_data: WorldUserV {
                        is_favorite: crate::custom_data::CustomData::spec_flag(
                            custom_data.world_favorites@,
                            ws0[k].api_data.world_id,
                        ),
                        is_photographed: crate::custom_data::CustomData::spec_flag(
                            custom_data.world_photographed@,
                            ws0[k].api_data.world_id,
                        ),
                        is_shared: crate::custom_data::CustomData::spec_flag(
                            custom_data.world_shared@,
                            ws0[k].api_data.world_id,
                        ),
                        ..ws0[k].user_data
                    },
                    ..ws0[k]
                }) by {
                    if k < j as int {
                        assert(wviews(worlds@)[k] == pre[k]);
                    } else {
                        assert(pre[j as int] == pre_vec[j as int]@);
                        assert(pre[j as int] == ws0[j as int]);
                        assert(pre_vec[j as int].api_data.world_id@
                            == ws0[j as int].api_data.world_id);
                        assert(wviews(worlds@)[k] == worlds@[k]@);
                        assert(wviews(worlds@)[k] =~~= (WorldV {
                            user_data: WorldUserV {
                                is_favorite: crate::custom_data::CustomData::spec_flag(
                                    custom_data.world_favorites@,
                                    ws0[k].api_data.world_id,
                                ),
                                is_photographed: crate::custom_data::CustomData::spec_flag(
                                    custom_data.world_photographed@,
                                    ws0[k].api_data.world_id,
                                ),
                                is_shared: crate::custom_data::CustomData::spec_flag(
                                    custom_data.world_shared@,
                                    ws0[k].api_data.world_id,
                                ),
                                ..ws0[k].user_data
                            },
                            ..ws0[k]
                        }));
                    }
                }
                assert forall|k: int| j + 1 <= k < ws0.len() implies #[trigger] wviews(
                    worlds@,
                )[k] == ws0[k] by {
                    assert(wviews(worlds@)[k] == pre[k]);
                }
            }
            j = j + 1;
        }
        proof {
            assert forall|fs: Seq<FolderV>| #[trigger] consistent(fs, ws0) implies consistent(
                fs,
                wviews(worlds@),
            ) by {
                lemma_consistent_user_fields(fs, ws0, wviews(worlds@));
            }
        }
    }
}

/// What a folder's color becomes under the override store, read as text.
pub open spec fn spec_override_color(
    cd: crate::custom_data::CustomData,
    name: Seq<char>,
) -> Option<Seq<char>> {
    crate::custom_data::spec_lookup_color(cd.folder_colors@, name)
}

impl FolderManager {
    /// Applies the side-channel colors to every folder: each folder's
    /// color becomes exactly what the override store records for its name
    /// (or none); names and member lists are untouched, so any worlds
    /// consistent with the folders stay consistent. Loading runs this
    /// after the folder file is read.
    pub fn apply_folder_colors(
        folders: &mut Vec<FolderModel>,
        custom_data: &crate::custom_data::CustomData,
    )
        requires
            custom_data.wf(),
        ensures
            final(folders)@.len() == old(folders)@.len(),
            forall|i: int|
                0 <= i < old(folders)@.len() ==> #[trigger] fviews(final(folders)@)[i] == (FolderV {
                    color: spec_override_color(
                        *custom_data,
                        fviews(old(folders)@)[i].folder_name,
                    ),
                    ..fviews(old(folders)@)[i]
                }),
            forall|ws: Seq<WorldV>|
                #[trigger] consistent(fviews(old(folders)@), ws) ==> consistent(
                    fviews(final(folders)@),
                    ws,
                ),
    {
        let ghost fs0 = fviews(folders@);
        let mut i: usize = 0;
        while i < folders.len()
            invariant
                0 <= i <= folders@.len(),
                folders@.len() == fs0.len(),
                custom_data.wf(),
                forall|k: int|
                    0 <= k < i ==> #[trigger] fviews(folders@)[k] == (FolderV {
                        color: spec_override_color(*custom_data, fs0[k].folder_name),
                        ..fs0[k]
                    }),
                forall|k: int| i <= k < fs0.len() ==> #[trigger] fviews(folders@)[k] == fs0[k],
            decreases folders@.len() - i,
        {
            let ghost pre = fviews(folders@);
            let ghost pre_vec = folders@;
            let color: Option<String> = match custom_data.get_folder_color(
                folders[i].folder_name.as_str(),
            ) {
                Some(c) => Some(c.clone()),
                None => None,
            };
            let mut f = folders.remove(i);
            f.color = color;
            folders.insert(i, f);
            proof {
                assert(folders@ =~= pre_vec.update(i as int, folders@[i as int]));
                assert forall|k: int| 0 <= k < i + 1 implies #[trigger] fviews(folders@)[k] == (
                FolderV { color: spec_override_color(*custom_data, fs0[k].folder_name), ..fs0[k] }) by {
                    if k < i as int {
                        assert(fviews(folders@)[k] == pre[k]);
                    } else {
                        assert(pre[k] == pre_vec[k]@);
                        assert(pre[k] == fs0[k]);
                        assert(pre_vec[k].folder_name@ == fs0[k].folder_name);
                        assert(fviews(folders@)[k] == folders@[k]@);
                        assert(fviews(folders@)[k] =~~= (FolderV {
                            color: spec_override_color(*custom_data, fs0[k].folder_name),
                            ..fs0[k]
                        }));
                    }
                }
                assert forall|k: int| i + 1 <= k < fs0.len() implies #[trigger] fviews(
                    folders@,
                )[k] == fs0[k] by {
                    assert(fviews(folders@)[k] == pre[k]);
                }
            }
            i = i + 1;
        }
        proof {
            assert forall|ws: Seq<WorldV>| #[trigger] consistent(fs0, ws) implies consistent(
                fviews(folders@),
                ws,
            ) by {
                lemma_consistent_folder_cosmetics(fs0, fviews(folders@), ws);
            }
        }
    }

    /// Drops repeated platform entries from every world's provenance, in
    /// order of first occurrence — the backward-compatible cleanup loading
    /// applies to records written before the platform list was
    /// deduplicated. Nothing else about any world changes, and any folders
    /// consistent with the worlds stay consistent.
    pub fn normalize_platforms(worlds: &mut Vec<WorldModel>)
        ensures
            final(worlds)@.len() == old(worlds)@.len(),
            forall|j: int|
                0 <= j < old(worlds)@.len() ==> #[trigger] wviews(final(worlds)@)[j] == (WorldV {
                    api_data: crate::entities::WorldApiV {
                        platform: crate::api::world::spec_dedup(
                            wviews(old(worlds)@)[j].api_data.platform,
                        ),
                        ..wviews(old(worlds)@)[j].api_data
                    },
                    ..wviews(old(worlds)@)[j]
                }),
            forall|fs: Seq<FolderV>|
                #[trigger] consistent(fs, wviews(old(worlds)@)) ==> consistent(
                    fs,
                    wviews(final(worlds)@),
                ),
    {
        let ghost ws0 = wviews(worlds@);
        let mut j: usize = 0;
        while j < worlds.len()
            invariant
                0 <= j <= worlds@.len(),
                worlds@.len() == ws0.len(),
                forall|k: int|
                    0 <= k < j ==> #[trigger] wviews(worlds@)[k] == (WorldV {
                        api_data: crate::entities::WorldApiV {
                            platform: crate::api::world::spec_dedup(ws0[k].api_data.platform),
                            ..ws0[k].api_data
                        },
                        ..ws0[k]
                    }),
                forall|k: int| j <= k < ws0.len() ==> #[trigger] wviews(worlds@)[k] == ws0[k],
            decreases worlds@.len() - j,
        {
            let ghost pre = wviews(worlds@);
            let ghost pre_vec = worlds@;
            let deduped = crate::api::world::dedup_strings(&worlds[j].api_data.platform);
            let mut w = worlds.remove(j);
            w.api_data.platform = deduped;
            worlds.insert(j, w);
            proof {
                assert(worlds@ =~= pre_vec.update(j as int, worlds@[j as int]));
                assert forall|k: int| 0 <= k < j + 1 implies #[trigger] wviews(worlds@)[k] == (
                WorldV {
                    api_data: crate::entities::WorldApiV {
                        platform: crate::api::world::spec_dedup(ws0[k].api_data.platform),
                        ..ws0[k].api_data
                    },
                    ..ws0[k]
                }) by {
                    if k < j as int {
                        assert(wviews(worlds@)[k] == pre[k]);
                    } else {
                        assert(pre[k] == pre_vec[k]@);
                        assert(pre[k] == ws0[k]);
                        assert(pre_vec[k].api_data.platform.deep_view()
                            == ws0[k].api_data.platform);
                        assert(wviews(worlds@)[k] == worlds@[k]@);
                        assert(wviews(worlds@)[k] =~~= (WorldV {
                            api_data: crate::entities::WorldApiV {
                                platform: crate::api::world::spec_dedup(ws0[k].api_data.platform),
                                ..ws0[k].api_data
                            },
                            ..ws0[k]
                        }));
                    }
                }
                assert forall|k: int| j + 1 <= k < ws0.len() implies #[trigger] wviews(
                    worlds@,
                )[k] == ws0[k] by {
                    assert(wviews(worlds@)[k] == pre[k]);
                }
            }
            j = j + 1;
        }
        proof {
            assert forall|fs: Seq<FolderV>| #[trigger] consistent(fs, ws0) implies consistent(
                fs,
                wviews(worlds@),
            ) by {
                lemma_consistent_user_fields(fs, ws0, wviews(worlds@));
            }
        }
    }
}

/// With unique names and identifiers, any folder position bearing the
/// folder's name is the folder's own, and likewise for worlds; so a
/// property stated for the found positions holds for all matching ones.
proof fn lemma_unique_positions(fs: Seq<FolderV>, ws: Seq<WorldV>, fi: int, wi: int)
    requires
        folder_names_unique(fs),
        world_ids_unique(ws),
        0 <= fi < fs.len(),
        0 <= wi < ws.len(),
    ensures
        forall|i: int|
            0 <= i < fs.len() && (#[trigger] fs[i]).folder_name == fs[fi].folder_name ==> i == fi,
        forall|j: int|
            0 <= j < ws.len() && (#[trigger] ws[j]).api_data.world_id == ws[wi].api_data.world_id
                ==> j == wi,
{
}

/// The folder position bearing a name is unique.
proof fn lemma_unique_folder_position(fs: Seq<FolderV>, fi: int)
    requires
        folder_names_unique(fs),
        0 <= fi < fs.len(),
    ensures
        forall|i: int|
            0 <= i < fs.len() && (#[trigger] fs[i]).folder_name == fs[fi].folder_name ==> i == fi,
{
}

/// The world position bearing an identifier is unique.
proof fn lemma_unique_world_position(ws: Seq<WorldV>, wi: int)
    requires
        world_ids_unique(ws),
        0 <= wi < ws.len(),
    ensures
        forall|j: int|
            0 <= j < ws.len() && (#[trigger] ws[j]).api_data.world_id == ws[wi].api_data.world_id
                ==> j == wi,
{
}

} // verus!
