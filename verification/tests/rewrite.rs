use submerge::commit::{failed_lookup, Commit, HostCommit, NewCommit, PathLookup, Signature};
use submerge::error::RewriteError;
use submerge::finalize::{checkout_rewritten_history, Reset};
use submerge::host::{
    begin_host_commit, finish_host_commit, resolve_pointer, HostPlan, HostRewrite,
};
use submerge::mappings::UserMappings;
use submerge::oid::Oid;
use submerge::precheck::{
    are_mappings_valid, contains_oid, invalid_mapping_targets, is_workdir_clean,
    workdir_status_query,
};
use submerge::scan::{find_dangling_references_to_submodule, pointer_is_dangling};
use submerge::store::MappingStore;
use submerge::tree::{subtree_splice, TreeEdit, TreeEntry, GITLINK_MODE, SUBTREE_MODE};
use submerge::walk::{history_walk_order, submodule_url};
use submerge::submodule::{
    begin_submodule_commit, finish_submodule_commit, relocated_path, relocated_paths,
    rewritten_parents, PATH_SEPARATOR,
};

fn oid(n: u8) -> Oid {
    Oid::from_bytes([n; 20])
}

fn signature(name: &str, seconds: i64) -> Signature {
    Signature {
        name: name.as_bytes().to_vec(),
        email: format!("{}@example.org", name).into_bytes(),
        seconds,
        offset_minutes: -90,
    }
}

fn commit(id: u8, tree: u8, parents: &[u8]) -> Commit {
    Commit {
        id: oid(id),
        tree: oid(tree),
        parents: parents.iter().map(|p| oid(*p)).collect(),
        author: signature("author", 1000 + id as i64),
        committer: signature("committer", 2000 + id as i64),
        message: format!("commit {}\n", id).into_bytes(),
    }
}

fn host_commit(c: Commit, pointer: PathLookup, parent_pointers: &[PathLookup]) -> HostCommit {
    HostCommit { commit: c, pointer, parent_pointers: parent_pointers.to_vec() }
}

/// A commit as an object store would keep it.
#[derive(Clone, Debug, PartialEq, Eq)]
struct Stored {
    id: Oid,
    tree: Oid,
    parents: Vec<Oid>,
    author: Signature,
    committer: Signature,
    message: Vec<u8>,
}

/// Stands in for the object store: names what it is given by its content.
struct Objects {
    commits: Vec<Stored>,
}

fn digest(parts: &[&[u8]]) -> Oid {
    let mut bytes = [0u8; 20];
    for (lane, byte) in bytes.iter_mut().enumerate() {
        let mut h: u64 = 0xcbf29ce484222325 ^ (lane as u64);
        for part in parts {
            h ^= part.len() as u64;
            h = h.wrapping_mul(0x100000001b3);
            for b in part.iter() {
                h ^= *b as u64;
                h = h.wrapping_mul(0x100000001b3);
            }
        }
        *byte = (h >> 24) as u8;
    }
    Oid::from_bytes(bytes)
}

impl Objects {
    fn new() -> Objects {
        Objects { commits: Vec::new() }
    }

    /// The tree that holds the entries of `tree` below the mount point.
    fn relocated(&self, tree: Oid) -> Oid {
        digest(&[b"moved", &tree.bytes])
    }

    /// The tree `tree` with `subtree` at the mount point.
    fn spliced(&self, tree: Oid, mode: u32, subtree: Oid) -> Oid {
        digest(&[b"spliced", &tree.bytes, &mode.to_be_bytes(), &subtree.bytes])
    }

    fn create(
        &mut self,
        tree: Oid,
        parents: &[Oid],
        author: &Signature,
        committer: &Signature,
        message: &[u8],
    ) -> Oid {
        let mut flat: Vec<u8> = Vec::new();
        for p in parents {
            flat.extend_from_slice(&p.bytes);
        }
        let id = digest(&[
            &tree.bytes,
            &flat,
            &author.name,
            &author.email,
            &author.seconds.to_be_bytes(),
            &committer.name,
            &committer.seconds.to_be_bytes(),
            message,
        ]);
        self.commits.push(Stored {
            id,
            tree,
            parents: parents.to_vec(),
            author: author.clone(),
            committer: committer.clone(),
            message: message.to_vec(),
        });
        id
    }

    fn find(&self, id: Oid) -> &Stored {
        self.commits.iter().find(|c| c.id == id).expect("no such commit")
    }
}

/// The first pass, as a program would run it.
fn rewrite_submodule(
    store: &mut MappingStore,
    objects: &mut Objects,
    walk: &[Commit],
) -> Result<(), RewriteError> {
    for c in walk {
        let new_tree = objects.relocated(c.tree);
        let request = begin_submodule_commit(store, c, new_tree)?;
        let id = objects.create(
            request.tree,
            &request.parents,
            &request.author,
            &request.committer,
            &request.message,
        );
        finish_submodule_commit(store, c, id)?;
    }
    Ok(())
}

/// The tree found at the mount point in a rewritten submodule commit: the
/// tree of the submodule commit that it stands for.
fn subtree_of(submodule_walk: &[Commit], store: &MappingStore, rewritten: Oid) -> Oid {
    submodule_walk
        .iter()
        .find(|c| store.get(&c.id) == Some(rewritten))
        .expect("not a rewritten submodule commit")
        .tree
}

/// The second pass, as a program would run it.
fn rewrite_host(
    store: &mut MappingStore,
    objects: &mut Objects,
    mappings: &UserMappings,
    default_mapping: &Option<Oid>,
    submodule_walk: &[Commit],
    walk: &[HostCommit],
) -> Result<(), RewriteError> {
    for c in walk {
        match begin_host_commit(store, mappings, default_mapping, c)? {
            HostPlan::Unchanged => {}
            HostPlan::Rewrite(rewrite) => {
                let subtree = subtree_of(submodule_walk, store, rewrite.submodule_commit);
                let edit = subtree_splice("sub", subtree);
                assert_eq!(edit.remove, edit.insert.name);
                let tree = objects.spliced(c.commit.tree, edit.insert.mode, edit.insert.id);
                let id = objects.create(
                    tree,
                    &rewrite.parents,
                    &rewrite.author,
                    &rewrite.committer,
                    &rewrite.message,
                );
                finish_host_commit(store, c, id)?;
            }
        }
    }
    Ok(())
}

const S1: u8 = 0x11;
const S2: u8 = 0x12;
const S3: u8 = 0x13;
const TS1: u8 = 0x21;
const TS2: u8 = 0x22;
const TS3: u8 = 0x23;
const H1: u8 = 0x31;
const H2: u8 = 0x32;
const H3: u8 = 0x33;
const M: u8 = 0x3f;
const TH1: u8 = 0x41;
const TH2: u8 = 0x42;
const TH3: u8 = 0x43;
const TM: u8 = 0x4f;
const X: u8 = 0x99;

fn linear_submodule() -> Vec<Commit> {
    vec![commit(S1, TS1, &[]), commit(S2, TS2, &[S1])]
}

fn found(n: u8) -> PathLookup {
    PathLookup::Found(oid(n))
}

// ---- relocating paths ----

#[test]
fn relocated_path_puts_the_directory_in_front() {
    assert_eq!(
        relocated_path("sub", &b"src/main.rs".to_vec()),
        Some(b"sub/src/main.rs".to_vec())
    );
    assert_eq!(relocated_path("sub", &b"README".to_vec()), Some(b"sub/README".to_vec()));
    assert_eq!(
        relocated_path("deep/down", &b"a".to_vec()),
        Some(b"deep/down/a".to_vec())
    );
    assert_eq!(PATH_SEPARATOR, b'/');
}

#[test]
fn relocated_path_keeps_bytes_that_are_no_text() {
    let path = vec![0xff, 0xfe, b'/', 0x80];
    assert_eq!(
        relocated_path("sub", &path),
        Some(vec![b's', b'u', b'b', b'/', 0xff, 0xfe, b'/', 0x80])
    );
}

#[test]
fn relocated_path_takes_names_that_only_begin_alike() {
    assert_eq!(
        relocated_path("sub", &b"submarine/x".to_vec()),
        Some(b"sub/submarine/x".to_vec())
    );
    assert_eq!(relocated_path("sub", &b"su".to_vec()), Some(b"sub/su".to_vec()));
    assert_eq!(relocated_path("sub", &b"a/sub/x".to_vec()), Some(b"sub/a/sub/x".to_vec()));
    assert_eq!(relocated_path("sub", &Vec::new()), Some(b"sub/".to_vec()));
}

#[test]
fn relocated_path_refuses_an_entry_named_like_the_mount_point() {
    assert_eq!(relocated_path("sub", &b"sub".to_vec()), None);
    assert_eq!(relocated_path("sub", &b"sub/x".to_vec()), None);
    assert_eq!(relocated_path("sub", &b"sub/".to_vec()), None);
}

#[test]
fn relocated_paths_moves_every_entry_and_keeps_the_order() {
    let paths = vec![b"README".to_vec(), b"src/lib.rs".to_vec(), b"src/a/b".to_vec()];
    assert_eq!(
        relocated_paths("sub", &paths),
        Some(vec![
            b"sub/README".to_vec(),
            b"sub/src/lib.rs".to_vec(),
            b"sub/src/a/b".to_vec()
        ])
    );
    assert_eq!(relocated_paths("sub", &Vec::new()), Some(Vec::new()));
}

#[test]
fn relocated_paths_refuses_a_tree_with_an_entry_named_like_the_mount_point() {
    let paths = vec![b"README".to_vec(), b"sub/x".to_vec(), b"src/lib.rs".to_vec()];
    assert_eq!(relocated_paths("sub", &paths), None);
    let paths = vec![b"sub".to_vec()];
    assert_eq!(relocated_paths("sub", &paths), None);
}

// ---- the first pass ----

#[test]
fn rewritten_parents_keeps_the_order() {
    let mut store = MappingStore::new();
    store.insert(oid(1), oid(101)).unwrap();
    store.insert(oid(2), oid(102)).unwrap();
    store.insert(oid(3), oid(103)).unwrap();
    assert_eq!(
        rewritten_parents(&store, &vec![oid(3), oid(1), oid(2), oid(1)]),
        Ok(vec![oid(103), oid(101), oid(102), oid(101)])
    );
    assert_eq!(rewritten_parents(&store, &Vec::new()), Ok(Vec::new()));
}

#[test]
fn rewritten_parents_names_the_first_that_is_missing() {
    let mut store = MappingStore::new();
    store.insert(oid(1), oid(101)).unwrap();
    assert_eq!(
        rewritten_parents(&store, &vec![oid(1), oid(7), oid(8)]),
        Err(RewriteError::MissingParent(oid(7)))
    );
}

#[test]
fn submodule_root_commit_is_rewritten() {
    let mut store = MappingStore::new();
    let c = commit(S1, TS1, &[]);
    let request = begin_submodule_commit(&mut store, &c, oid(0x51)).unwrap();
    assert_eq!(
        request,
        NewCommit {
            tree: oid(0x51),
            parents: Vec::new(),
            author: c.author.clone(),
            committer: c.committer.clone(),
            message: c.message.clone(),
        }
    );
    assert_eq!(store.get(&oid(TS1)), Some(oid(0x51)));
    assert_eq!(store.get(&oid(S1)), None);
    assert_eq!(finish_submodule_commit(&mut store, &c, oid(0x61)), Ok(()));
    assert_eq!(store.get(&oid(S1)), Some(oid(0x61)));
}

#[test]
fn submodule_merge_keeps_parent_order() {
    let mut store = MappingStore::new();
    store.insert(oid(1), oid(101)).unwrap();
    store.insert(oid(2), oid(102)).unwrap();
    let c = commit(3, TS3, &[2, 1]);
    let request = begin_submodule_commit(&mut store, &c, oid(0x53)).unwrap();
    assert_eq!(request.parents, vec![oid(102), oid(101)]);
    assert_eq!(request.tree, oid(0x53));
}

#[test]
fn submodule_commit_keeps_author_committer_and_message() {
    let mut store = MappingStore::new();
    let mut c = commit(S1, TS1, &[]);
    c.author = Signature {
        name: vec![0xc3, 0x28, 0xff],
        email: b"a@b".to_vec(),
        seconds: -5,
        offset_minutes: 330,
    };
    c.message = vec![0xff, 0x00, b'\n', b'\n'];
    let request = begin_submodule_commit(&mut store, &c, oid(0x51)).unwrap();
    assert_eq!(request.author, c.author);
    assert_eq!(request.committer, c.committer);
    assert_eq!(request.message, vec![0xff, 0x00, b'\n', b'\n']);
}

#[test]
fn submodule_commits_may_share_a_tree() {
    let mut store = MappingStore::new();
    let mut objects = Objects::new();
    let walk = vec![commit(S1, TS1, &[]), commit(S2, TS1, &[S1]), commit(S3, TS1, &[S2])];
    assert_eq!(rewrite_submodule(&mut store, &mut objects, &walk), Ok(()));
    assert_eq!(store.get(&oid(TS1)), Some(objects.relocated(oid(TS1))));
    assert!(store.contains(&oid(S3)));
}

#[test]
fn submodule_tree_recorded_otherwise_is_refused() {
    let mut store = MappingStore::new();
    store.insert(oid(TS1), oid(0x50)).unwrap();
    let c = commit(S1, TS1, &[]);
    assert_eq!(
        begin_submodule_commit(&mut store, &c, oid(0x51)),
        Err(RewriteError::Collision(oid(TS1)))
    );
    assert_eq!(store.get(&oid(TS1)), Some(oid(0x50)));
}

#[test]
fn submodule_commit_is_rewritten_once() {
    let mut store = MappingStore::new();
    let c = commit(S1, TS1, &[]);
    begin_submodule_commit(&mut store, &c, oid(0x51)).unwrap();
    finish_submodule_commit(&mut store, &c, oid(0x61)).unwrap();
    assert_eq!(
        begin_submodule_commit(&mut store, &c, oid(0x51)),
        Err(RewriteError::Collision(oid(S1)))
    );
    assert_eq!(
        finish_submodule_commit(&mut store, &c, oid(0x62)),
        Err(RewriteError::Collision(oid(S1)))
    );
    assert_eq!(store.get(&oid(S1)), Some(oid(0x61)));
}

#[test]
fn submodule_commit_named_like_its_tree_is_refused() {
    let mut store = MappingStore::new();
    let c = commit(S1, S1, &[]);
    assert_eq!(
        begin_submodule_commit(&mut store, &c, oid(0x51)),
        Err(RewriteError::Collision(oid(S1)))
    );
    assert!(!store.contains(&oid(S1)));
}

#[test]
fn submodule_child_before_parent_is_refused() {
    let mut store = MappingStore::new();
    let mut objects = Objects::new();
    let walk = vec![commit(S2, TS2, &[S1]), commit(S1, TS1, &[])];
    assert_eq!(
        rewrite_submodule(&mut store, &mut objects, &walk),
        Err(RewriteError::MissingParent(oid(S1)))
    );
    // the tree was recorded before the parents were looked up
    assert!(store.contains(&oid(TS2)));
    assert!(!store.contains(&oid(S2)));
}

#[test]
fn first_pass_records_every_commit_it_walked() {
    let mut store = MappingStore::new();
    let mut objects = Objects::new();
    let walk = vec![
        commit(1, 0x21, &[]),
        commit(2, 0x22, &[1]),
        commit(3, 0x23, &[1]),
        commit(4, 0x24, &[2, 3]),
        commit(5, 0x25, &[4]),
    ];
    rewrite_submodule(&mut store, &mut objects, &walk).unwrap();
    for c in &walk {
        let new = store.get(&c.id).expect("a walked commit is a key");
        let stored = objects.find(new);
        assert_eq!(stored.author, c.author);
        assert_eq!(stored.committer, c.committer);
        assert_eq!(stored.message, c.message);
        assert_eq!(stored.tree, objects.relocated(c.tree));
        let parents: Vec<Oid> = c.parents.iter().map(|p| store.get(p).unwrap()).collect();
        assert_eq!(stored.parents, parents);
    }
}

#[test]
fn first_pass_twice_creates_the_same_commits() {
    let walk = vec![
        commit(1, 0x21, &[]),
        commit(2, 0x22, &[1]),
        commit(3, 0x23, &[1]),
        commit(4, 0x24, &[2, 3]),
    ];
    let mut first = MappingStore::new();
    let mut objects = Objects::new();
    rewrite_submodule(&mut first, &mut objects, &walk).unwrap();
    let mut second = MappingStore::new();
    let mut other_objects = Objects::new();
    rewrite_submodule(&mut second, &mut other_objects, &walk).unwrap();
    for c in &walk {
        assert_eq!(first.get(&c.id), second.get(&c.id));
        assert_eq!(first.get(&c.tree), second.get(&c.tree));
    }
    assert_eq!(objects.commits, other_objects.commits);
}

#[test]
fn new_parents_are_created_before_their_children() {
    let mut store = MappingStore::new();
    let mut objects = Objects::new();
    let submodule = linear_submodule();
    rewrite_submodule(&mut store, &mut objects, &submodule).unwrap();
    let host = vec![
        host_commit(commit(H1, TH1, &[]), PathLookup::NotFound, &[]),
        host_commit(commit(H2, TH2, &[H1]), found(S1), &[PathLookup::NotFound]),
        host_commit(commit(H3, TH3, &[H2]), found(S2), &[found(S1)]),
    ];
    rewrite_host(&mut store, &mut objects, &UserMappings::new(), &None, &submodule, &host)
        .unwrap();
    for (n, created) in objects.commits.iter().enumerate() {
        for parent in &created.parents {
            let earlier = objects.commits[..n].iter().any(|c| c.id == *parent);
            assert!(earlier || *parent == oid(H1));
        }
    }
}

// ---- resolving pointers ----

#[test]
fn pointer_resolves_to_the_rewritten_commit() {
    let mut store = MappingStore::new();
    store.insert(oid(S1), oid(0x61)).unwrap();
    assert_eq!(resolve_pointer(&store, &UserMappings::new(), &None, &oid(S1)), Ok(oid(0x61)));
}

#[test]
fn pointer_is_replaced_before_it_is_looked_up() {
    let mut store = MappingStore::new();
    store.insert(oid(S1), oid(0x61)).unwrap();
    store.insert(oid(S2), oid(0x62)).unwrap();
    let mut mappings = UserMappings::new();
    mappings.set(oid(S1), oid(S2));
    mappings.set(oid(X), oid(S1));
    assert_eq!(resolve_pointer(&store, &mappings, &None, &oid(S1)), Ok(oid(0x62)));
    assert_eq!(resolve_pointer(&store, &mappings, &None, &oid(X)), Ok(oid(0x61)));
    assert_eq!(resolve_pointer(&store, &mappings, &None, &oid(S2)), Ok(oid(0x62)));
}

#[test]
fn pointer_falls_back_on_the_default() {
    let mut store = MappingStore::new();
    store.insert(oid(S1), oid(0x61)).unwrap();
    store.insert(oid(S2), oid(0x62)).unwrap();
    let default_mapping = Some(oid(S2));
    assert_eq!(
        resolve_pointer(&store, &UserMappings::new(), &default_mapping, &oid(X)),
        Ok(oid(0x62))
    );
    // a pointer that is known does not need the default
    assert_eq!(
        resolve_pointer(&store, &UserMappings::new(), &default_mapping, &oid(S1)),
        Ok(oid(0x61))
    );
    // a substitution that leads nowhere falls back as well
    let mut mappings = UserMappings::new();
    mappings.set(oid(S1), oid(X));
    assert_eq!(resolve_pointer(&store, &mappings, &default_mapping, &oid(S1)), Ok(oid(0x62)));
}

#[test]
fn pointer_without_a_way_is_unresolved() {
    let mut store = MappingStore::new();
    store.insert(oid(S1), oid(0x61)).unwrap();
    assert_eq!(
        resolve_pointer(&store, &UserMappings::new(), &None, &oid(X)),
        Err(RewriteError::UnresolvedPointer(oid(X)))
    );
    let mut mappings = UserMappings::new();
    mappings.set(oid(X), oid(0x98));
    assert_eq!(
        resolve_pointer(&store, &mappings, &None, &oid(X)),
        Err(RewriteError::UnresolvedPointer(oid(0x98)))
    );
}

#[test]
fn default_that_was_not_rewritten_is_a_fault() {
    let mut store = MappingStore::new();
    store.insert(oid(S1), oid(0x61)).unwrap();
    assert_eq!(
        resolve_pointer(&store, &UserMappings::new(), &Some(oid(0x77)), &oid(X)),
        Err(RewriteError::UnknownDefault(oid(0x77)))
    );
}

// ---- the second pass, commit by commit ----

#[test]
fn host_commit_without_submodule_stands_for_itself() {
    let mut store = MappingStore::new();
    let c = host_commit(commit(H1, TH1, &[]), PathLookup::NotFound, &[]);
    assert_eq!(
        begin_host_commit(&mut store, &UserMappings::new(), &None, &c),
        Ok(HostPlan::Unchanged)
    );
    assert_eq!(store.get(&oid(H1)), Some(oid(H1)));
}

#[test]
fn host_commit_without_submodule_needs_no_parents_in_the_store() {
    let mut store = MappingStore::new();
    let c = host_commit(commit(H2, TH2, &[H1]), PathLookup::NotFound, &[PathLookup::Failed]);
    assert_eq!(
        begin_host_commit(&mut store, &UserMappings::new(), &None, &c),
        Ok(HostPlan::Unchanged)
    );
    assert_eq!(store.get(&oid(H2)), Some(oid(H2)));
}

#[test]
fn host_commit_with_new_pointer_gets_a_parent_more() {
    let mut store = MappingStore::new();
    store.insert(oid(S1), oid(0x61)).unwrap();
    store.insert(oid(S2), oid(0x62)).unwrap();
    store.insert(oid(H2), oid(0x72)).unwrap();
    let c = host_commit(commit(H3, TH3, &[H2]), found(S2), &[found(S1)]);
    let plan = begin_host_commit(&mut store, &UserMappings::new(), &None, &c).unwrap();
    assert_eq!(
        plan,
        HostPlan::Rewrite(HostRewrite {
            submodule_commit: oid(0x62),
            advanced: true,
            parents: vec![oid(0x72), oid(0x62)],
            author: c.commit.author.clone(),
            committer: c.commit.committer.clone(),
            message: c.commit.message.clone(),
        })
    );
    assert_eq!(store.get(&oid(H3)), None);
    assert_eq!(finish_host_commit(&mut store, &c, oid(0x73)), Ok(()));
    assert_eq!(store.get(&oid(H3)), Some(oid(0x73)));
}

#[test]
fn host_commit_with_old_pointer_keeps_its_parents() {
    let mut store = MappingStore::new();
    store.insert(oid(S1), oid(0x61)).unwrap();
    store.insert(oid(H2), oid(0x72)).unwrap();
    let c = host_commit(commit(H3, TH3, &[H2]), found(S1), &[found(S1)]);
    match begin_host_commit(&mut store, &UserMappings::new(), &None, &c).unwrap() {
        HostPlan::Rewrite(rewrite) => {
            assert!(!rewrite.advanced);
            assert_eq!(rewrite.parents, vec![oid(0x72)]);
            assert_eq!(rewrite.submodule_commit, oid(0x61));
        }
        HostPlan::Unchanged => panic!("the commit holds the submodule"),
    }
}

#[test]
fn host_root_commit_with_pointer_is_grafted() {
    let mut store = MappingStore::new();
    store.insert(oid(S1), oid(0x61)).unwrap();
    let c = host_commit(commit(H1, TH1, &[]), found(S1), &[]);
    match begin_host_commit(&mut store, &UserMappings::new(), &None, &c).unwrap() {
        HostPlan::Rewrite(rewrite) => {
            assert!(rewrite.advanced);
            assert_eq!(rewrite.parents, vec![oid(0x61)]);
        }
        HostPlan::Unchanged => panic!("the commit holds the submodule"),
    }
}

#[test]
fn advance_is_judged_before_substitution() {
    let mut store = MappingStore::new();
    store.insert(oid(S1), oid(0x61)).unwrap();
    store.insert(oid(S2), oid(0x62)).unwrap();
    store.insert(oid(H2), oid(0x72)).unwrap();
    let mut mappings = UserMappings::new();
    mappings.set(oid(X), oid(S1));
    // the parent holds S1, the commit holds X which is replaced by S1:
    // the pointer moved all the same
    let c = host_commit(commit(H3, TH3, &[H2]), found(X), &[found(S1)]);
    match begin_host_commit(&mut store, &mappings, &None, &c).unwrap() {
        HostPlan::Rewrite(rewrite) => {
            assert!(rewrite.advanced);
            assert_eq!(rewrite.parents, vec![oid(0x72), oid(0x61)]);
        }
        HostPlan::Unchanged => panic!("the commit holds the submodule"),
    }
    // the parent holds X as well: the pointer did not move
    let c = host_commit(commit(H3, TH3, &[H2]), found(X), &[found(X)]);
    match begin_host_commit(&mut store, &mappings, &None, &c).unwrap() {
        HostPlan::Rewrite(rewrite) => {
            assert!(!rewrite.advanced);
            assert_eq!(rewrite.parents, vec![oid(0x72)]);
            assert_eq!(rewrite.submodule_commit, oid(0x61));
        }
        HostPlan::Unchanged => panic!("the commit holds the submodule"),
    }
}

#[test]
fn host_commit_keeps_author_committer_and_message() {
    let mut store = MappingStore::new();
    store.insert(oid(S1), oid(0x61)).unwrap();
    let mut c = host_commit(commit(H1, TH1, &[]), found(S1), &[]);
    c.commit.message = vec![0x80, 0x81, 0x00];
    c.commit.committer.offset_minutes = 0;
    match begin_host_commit(&mut store, &UserMappings::new(), &None, &c).unwrap() {
        HostPlan::Rewrite(rewrite) => {
            assert_eq!(rewrite.author, c.commit.author);
            assert_eq!(rewrite.committer, c.commit.committer);
            assert_eq!(rewrite.message, vec![0x80, 0x81, 0x00]);
        }
        HostPlan::Unchanged => panic!("the commit holds the submodule"),
    }
}

#[test]
fn host_commit_already_recorded_is_refused() {
    let mut store = MappingStore::new();
    store.insert(oid(H1), oid(0x71)).unwrap();
    let c = host_commit(commit(H1, TH1, &[]), PathLookup::NotFound, &[]);
    assert_eq!(
        begin_host_commit(&mut store, &UserMappings::new(), &None, &c),
        Err(RewriteError::Collision(oid(H1)))
    );
    assert_eq!(
        finish_host_commit(&mut store, &c, oid(0x79)),
        Err(RewriteError::Collision(oid(H1)))
    );
    assert_eq!(store.get(&oid(H1)), Some(oid(0x71)));
}

#[test]
fn host_lookup_that_failed_is_a_fault() {
    let mut store = MappingStore::new();
    store.insert(oid(S1), oid(0x61)).unwrap();
    store.insert(oid(H1), oid(H1)).unwrap();
    let c = host_commit(commit(H2, TH2, &[H1]), PathLookup::Failed, &[PathLookup::NotFound]);
    assert_eq!(
        begin_host_commit(&mut store, &UserMappings::new(), &None, &c),
        Err(RewriteError::LookupFailed(oid(H2)))
    );
    let c = host_commit(commit(H2, TH2, &[H1]), found(S1), &[PathLookup::Failed]);
    assert_eq!(
        begin_host_commit(&mut store, &UserMappings::new(), &None, &c),
        Err(RewriteError::LookupFailed(oid(H2)))
    );
    assert!(!store.contains(&oid(H2)));
}

#[test]
fn host_child_before_parent_is_refused() {
    let mut store = MappingStore::new();
    store.insert(oid(S1), oid(0x61)).unwrap();
    let c = host_commit(commit(H2, TH2, &[H1]), found(S1), &[PathLookup::NotFound]);
    assert_eq!(
        begin_host_commit(&mut store, &UserMappings::new(), &None, &c),
        Err(RewriteError::MissingParent(oid(H1)))
    );
}

#[test]
fn host_pointer_that_dangles_is_a_fault() {
    let mut store = MappingStore::new();
    store.insert(oid(S1), oid(0x61)).unwrap();
    let c = host_commit(commit(H1, TH1, &[]), found(X), &[]);
    assert_eq!(
        begin_host_commit(&mut store, &UserMappings::new(), &None, &c),
        Err(RewriteError::UnresolvedPointer(oid(X)))
    );
    assert_eq!(
        begin_host_commit(&mut store, &UserMappings::new(), &Some(oid(0x77)), &c),
        Err(RewriteError::UnknownDefault(oid(0x77)))
    );
}

#[test]
fn splice_puts_a_directory_in_the_pointers_place() {
    let edit = subtree_splice("sub", oid(TS1));
    assert_eq!(
        edit,
        TreeEdit {
            remove: b"sub".to_vec(),
            insert: TreeEntry { name: b"sub".to_vec(), mode: 0o040000, id: oid(TS1) },
        }
    );
    assert_eq!(SUBTREE_MODE, 0o040000);
    assert_eq!(GITLINK_MODE, 0o160000);
    assert_ne!(edit.insert.mode, GITLINK_MODE);
}

// ---- whole histories ----

#[test]
fn linear_histories_with_one_bump() {
    let mut store = MappingStore::new();
    let mut objects = Objects::new();
    let submodule = linear_submodule();
    rewrite_submodule(&mut store, &mut objects, &submodule).unwrap();
    let s1 = store.get(&oid(S1)).unwrap();
    let s2 = store.get(&oid(S2)).unwrap();
    assert_eq!(objects.find(s2).parents, vec![s1]);

    let host = vec![
        host_commit(commit(H1, TH1, &[]), PathLookup::NotFound, &[]),
        host_commit(commit(H2, TH2, &[H1]), found(S1), &[PathLookup::NotFound]),
        host_commit(commit(H3, TH3, &[H2]), found(S2), &[found(S1)]),
    ];
    let lookups: Vec<(Oid, PathLookup)> = host.iter().map(|c| (c.commit.id, c.pointer)).collect();
    assert_eq!(
        find_dangling_references_to_submodule(&lookups, &store, &UserMappings::new(), &None),
        Ok(Vec::new())
    );
    rewrite_host(&mut store, &mut objects, &UserMappings::new(), &None, &submodule, &host)
        .unwrap();

    // H1 does not hold the submodule and stays
    assert_eq!(store.get(&oid(H1)), Some(oid(H1)));
    // H2 brought the submodule in: its parent has no pointer, so it is an
    // advance and is grafted onto S1'
    let h2 = objects.find(store.get(&oid(H2)).unwrap()).clone();
    assert_eq!(h2.parents, vec![oid(H1), s1]);
    assert_eq!(h2.tree, objects.spliced(oid(TH2), 0o040000, oid(TS1)));
    // H3 moved the pointer to S2
    let h3 = objects.find(store.get(&oid(H3)).unwrap()).clone();
    assert_eq!(h3.parents, vec![h2.id, s2]);
    assert_eq!(h3.tree, objects.spliced(oid(TH3), 0o040000, oid(TS2)));
    // the branch goes to H3'
    assert_eq!(
        checkout_rewritten_history(&store, &oid(H3)),
        Ok(Reset { target: h3.id, hard: true, force: true })
    );
}

#[test]
fn merge_with_the_same_pointer_on_both_sides() {
    let mut store = MappingStore::new();
    let mut objects = Objects::new();
    let submodule = linear_submodule();
    rewrite_submodule(&mut store, &mut objects, &submodule).unwrap();
    let host = vec![
        host_commit(commit(H1, TH1, &[]), found(S1), &[]),
        host_commit(commit(H2, TH2, &[]), found(S1), &[]),
        host_commit(commit(M, TM, &[H1, H2]), found(S1), &[found(S1), found(S1)]),
    ];
    rewrite_host(&mut store, &mut objects, &UserMappings::new(), &None, &submodule, &host)
        .unwrap();
    let h1 = store.get(&oid(H1)).unwrap();
    let h2 = store.get(&oid(H2)).unwrap();
    let m = objects.find(store.get(&oid(M)).unwrap());
    assert_eq!(m.parents, vec![h1, h2]);
}

#[test]
fn merge_that_also_bumps_the_submodule() {
    let mut store = MappingStore::new();
    let mut objects = Objects::new();
    let submodule = linear_submodule();
    rewrite_submodule(&mut store, &mut objects, &submodule).unwrap();
    let host = vec![
        host_commit(commit(H1, TH1, &[]), found(S1), &[]),
        host_commit(commit(H2, TH2, &[]), found(S1), &[]),
        host_commit(commit(M, TM, &[H1, H2]), found(S2), &[found(S1), found(S1)]),
    ];
    rewrite_host(&mut store, &mut objects, &UserMappings::new(), &None, &submodule, &host)
        .unwrap();
    let h1 = store.get(&oid(H1)).unwrap();
    let h2 = store.get(&oid(H2)).unwrap();
    let s2 = store.get(&oid(S2)).unwrap();
    let m = objects.find(store.get(&oid(M)).unwrap());
    assert_eq!(m.parents, vec![h1, h2, s2]);
    assert_eq!(m.tree, objects.spliced(oid(TM), 0o040000, oid(TS2)));
}

#[test]
fn merge_of_two_pointers_into_one_of_them() {
    let mut store = MappingStore::new();
    let mut objects = Objects::new();
    let submodule = linear_submodule();
    rewrite_submodule(&mut store, &mut objects, &submodule).unwrap();
    let host = vec![
        host_commit(commit(H1, TH1, &[]), found(S1), &[]),
        host_commit(commit(H2, TH2, &[]), found(S2), &[]),
        host_commit(commit(M, TM, &[H1, H2]), found(S2), &[found(S1), found(S2)]),
    ];
    rewrite_host(&mut store, &mut objects, &UserMappings::new(), &None, &submodule, &host)
        .unwrap();
    let h1 = store.get(&oid(H1)).unwrap();
    let h2 = store.get(&oid(H2)).unwrap();
    let m = objects.find(store.get(&oid(M)).unwrap());
    assert_eq!(m.parents, vec![h1, h2]);
}

#[test]
fn dangling_reference_without_default() {
    let mut store = MappingStore::new();
    let mut objects = Objects::new();
    let submodule = linear_submodule();
    rewrite_submodule(&mut store, &mut objects, &submodule).unwrap();
    let lookups = vec![(oid(H1), PathLookup::NotFound), (oid(H2), found(X))];
    assert_eq!(
        find_dangling_references_to_submodule(&lookups, &store, &UserMappings::new(), &None),
        Ok(vec![oid(X)])
    );
    // nothing of the host history was recorded, so the branch has nowhere to go
    assert_eq!(
        checkout_rewritten_history(&store, &oid(H2)),
        Err(RewriteError::MissingHead(oid(H2)))
    );
}

#[test]
fn user_mapping_redirects_to_a_submodule_commit() {
    let mut store = MappingStore::new();
    let mut objects = Objects::new();
    let submodule = linear_submodule();
    rewrite_submodule(&mut store, &mut objects, &submodule).unwrap();
    let mut mappings = UserMappings::new();
    mappings.set(oid(X), oid(S2));
    let walk: Vec<Oid> = submodule.iter().map(|c| c.id).collect();
    assert!(are_mappings_valid(&walk, &mappings, &None));
    let host = vec![
        host_commit(commit(H1, TH1, &[]), PathLookup::NotFound, &[]),
        host_commit(commit(H2, TH2, &[H1]), found(X), &[PathLookup::NotFound]),
    ];
    let lookups: Vec<(Oid, PathLookup)> = host.iter().map(|c| (c.commit.id, c.pointer)).collect();
    assert_eq!(
        find_dangling_references_to_submodule(&lookups, &store, &mappings, &None),
        Ok(Vec::new())
    );
    rewrite_host(&mut store, &mut objects, &mappings, &None, &submodule, &host).unwrap();
    let s2 = store.get(&oid(S2)).unwrap();
    let h2 = objects.find(store.get(&oid(H2)).unwrap());
    assert_eq!(h2.parents, vec![oid(H1), s2]);
    assert_eq!(h2.tree, objects.spliced(oid(TH2), 0o040000, oid(TS2)));
}

#[test]
fn default_mapping_stands_in_for_an_unknown_pointer() {
    let mut store = MappingStore::new();
    let mut objects = Objects::new();
    let submodule = linear_submodule();
    rewrite_submodule(&mut store, &mut objects, &submodule).unwrap();
    let default_mapping = Some(oid(S1));
    let host = vec![host_commit(commit(H1, TH1, &[]), found(X), &[])];
    let lookups: Vec<(Oid, PathLookup)> = host.iter().map(|c| (c.commit.id, c.pointer)).collect();
    assert_eq!(
        find_dangling_references_to_submodule(
            &lookups,
            &store,
            &UserMappings::new(),
            &default_mapping
        ),
        Ok(Vec::new())
    );
    let mappings = UserMappings::new();
    rewrite_host(&mut store, &mut objects, &mappings, &default_mapping, &submodule, &host)
        .unwrap();
    let s1 = store.get(&oid(S1)).unwrap();
    let h1 = objects.find(store.get(&oid(H1)).unwrap());
    assert_eq!(h1.parents, vec![s1]);
    assert_eq!(h1.tree, objects.spliced(oid(TH1), 0o040000, oid(TS1)));
}

#[test]
fn second_pass_keeps_parent_order_and_grafts_on_advance_only() {
    let mut store = MappingStore::new();
    let mut objects = Objects::new();
    let submodule = vec![commit(S1, TS1, &[]), commit(S2, TS2, &[S1]), commit(S3, TS3, &[S2])];
    rewrite_submodule(&mut store, &mut objects, &submodule).unwrap();
    let host = vec![
        host_commit(commit(1, 0x41, &[]), PathLookup::NotFound, &[]),
        host_commit(commit(2, 0x42, &[1]), found(S1), &[PathLookup::NotFound]),
        host_commit(commit(3, 0x43, &[1]), found(S2), &[PathLookup::NotFound]),
        host_commit(commit(4, 0x44, &[3, 2]), found(S2), &[found(S2), found(S1)]),
        host_commit(commit(5, 0x45, &[4, 2, 3]), found(S3), &[found(S2), found(S1), found(S2)]),
        host_commit(commit(6, 0x46, &[5]), found(S3), &[found(S3)]),
        host_commit(commit(7, 0x47, &[6]), PathLookup::NotFound, &[found(S3)]),
    ];
    rewrite_host(&mut store, &mut objects, &UserMappings::new(), &None, &submodule, &host)
        .unwrap();
    for c in &host {
        let new = store.get(&c.commit.id).expect("a walked commit is a key");
        let pointer = match c.pointer {
            PathLookup::Found(p) => p,
            _ => {
                assert_eq!(new, c.commit.id);
                continue;
            }
        };
        let stored = objects.find(new);
        let n = c.commit.parents.len();
        let mapped: Vec<Oid> = c.commit.parents.iter().map(|p| store.get(p).unwrap()).collect();
        assert_eq!(stored.parents[..n], mapped[..]);
        let advanced = !c.parent_pointers.contains(&PathLookup::Found(pointer));
        assert_eq!(stored.parents.len(), if advanced { n + 1 } else { n });
        if advanced {
            assert_eq!(stored.parents[n], store.get(&pointer).unwrap());
        }
        assert_eq!(stored.author, c.commit.author);
        assert_eq!(stored.committer, c.commit.committer);
        assert_eq!(stored.message, c.commit.message);
    }
    let five = objects.find(store.get(&oid(5)).unwrap());
    assert_eq!(five.parents.len(), 4);
    let seven = store.get(&oid(7)).unwrap();
    assert_eq!(seven, oid(7));
}

// ---- the scan ----

#[test]
fn scan_lists_each_dangling_pointer_once() {
    let mut store = MappingStore::new();
    store.insert(oid(S1), oid(0x61)).unwrap();
    let mut mappings = UserMappings::new();
    mappings.set(oid(0x90), oid(S1));
    let lookups = vec![
        (oid(1), found(X)),
        (oid(2), PathLookup::NotFound),
        (oid(3), found(S1)),
        (oid(4), found(0x90)),
        (oid(5), found(0x98)),
        (oid(6), found(X)),
    ];
    assert_eq!(
        find_dangling_references_to_submodule(&lookups, &store, &mappings, &None),
        Ok(vec![oid(X), oid(0x98)])
    );
}

#[test]
fn scan_finds_nothing_with_a_default() {
    let store = MappingStore::new();
    let lookups = vec![(oid(1), found(X)), (oid(2), found(0x98))];
    assert_eq!(
        find_dangling_references_to_submodule(
            &lookups,
            &store,
            &UserMappings::new(),
            &Some(oid(S1))
        ),
        Ok(Vec::new())
    );
}

#[test]
fn scan_of_nothing_finds_nothing() {
    let store = MappingStore::new();
    assert_eq!(
        find_dangling_references_to_submodule(&Vec::new(), &store, &UserMappings::new(), &None),
        Ok(Vec::new())
    );
}

#[test]
fn scan_stops_on_the_first_failed_lookup() {
    let store = MappingStore::new();
    let lookups = vec![
        (oid(1), found(X)),
        (oid(2), PathLookup::Failed),
        (oid(3), PathLookup::Failed),
    ];
    assert_eq!(
        find_dangling_references_to_submodule(&lookups, &store, &UserMappings::new(), &None),
        Err(RewriteError::LookupFailed(oid(2)))
    );
}

#[test]
fn pointer_dangles_only_without_any_way() {
    let mut store = MappingStore::new();
    store.insert(oid(S1), oid(0x61)).unwrap();
    let mut mappings = UserMappings::new();
    mappings.set(oid(0x90), oid(S1));
    assert!(pointer_is_dangling(&store, &mappings, &None, &oid(X)));
    assert!(!pointer_is_dangling(&store, &mappings, &None, &oid(S1)));
    assert!(!pointer_is_dangling(&store, &mappings, &None, &oid(0x90)));
    assert!(!pointer_is_dangling(&store, &mappings, &Some(oid(S1)), &oid(X)));
}

// ---- what is checked first ----

#[test]
fn workdir_is_clean_without_status_entries() {
    assert!(is_workdir_clean(0));
    assert!(!is_workdir_clean(1));
    assert!(!is_workdir_clean(usize::MAX));
}

#[test]
fn workdir_status_query_leaves_out_what_does_not_count() {
    let query = workdir_status_query();
    assert!(!query.include_untracked);
    assert!(!query.include_ignored);
    assert!(!query.include_unmodified);
    assert!(!query.exclude_submodules);
    assert!(!query.recurse_untracked_dirs);
    assert!(!query.recurse_ignored_dirs);
}

#[test]
fn contains_oid_finds_what_is_there() {
    let list = vec![oid(1), oid(2), oid(3)];
    assert!(contains_oid(&list, &oid(1)));
    assert!(contains_oid(&list, &oid(3)));
    assert!(!contains_oid(&list, &oid(4)));
    assert!(!contains_oid(&Vec::new(), &oid(1)));
}

#[test]
fn mappings_into_the_history_are_valid() {
    let walk = vec![oid(S1), oid(S2), oid(S3)];
    let mut mappings = UserMappings::new();
    mappings.set(oid(X), oid(S2));
    mappings.set(oid(0x98), oid(S2));
    assert!(are_mappings_valid(&walk, &mappings, &None));
    assert!(are_mappings_valid(&walk, &mappings, &Some(oid(S3))));
    assert!(are_mappings_valid(&walk, &UserMappings::new(), &None));
    assert!(are_mappings_valid(&Vec::new(), &UserMappings::new(), &None));
    assert_eq!(invalid_mapping_targets(&walk, &mappings, &Some(oid(S1))), Vec::new());
}

#[test]
fn mappings_out_of_the_history_are_listed_once() {
    let walk = vec![oid(S1), oid(S2)];
    let mut mappings = UserMappings::new();
    mappings.set(oid(1), oid(0x70));
    mappings.set(oid(2), oid(S1));
    mappings.set(oid(3), oid(0x70));
    mappings.set(oid(4), oid(0x71));
    assert!(!are_mappings_valid(&walk, &mappings, &None));
    assert_eq!(
        invalid_mapping_targets(&walk, &mappings, &None),
        vec![oid(0x70), oid(0x71)]
    );
    assert_eq!(
        invalid_mapping_targets(&walk, &mappings, &Some(oid(0x71))),
        vec![oid(0x70), oid(0x71)]
    );
    assert_eq!(
        invalid_mapping_targets(&walk, &mappings, &Some(oid(0x72))),
        vec![oid(0x70), oid(0x71), oid(0x72)]
    );
}

#[test]
fn default_out_of_the_history_is_invalid() {
    let walk = vec![oid(S1), oid(S2)];
    assert!(!are_mappings_valid(&walk, &UserMappings::new(), &Some(oid(X))));
    assert_eq!(
        invalid_mapping_targets(&walk, &UserMappings::new(), &Some(oid(X))),
        vec![oid(X)]
    );
    // the pointers that are replaced need not be in the history
    let mut mappings = UserMappings::new();
    mappings.set(oid(X), oid(S1));
    assert!(are_mappings_valid(&walk, &mappings, &None));
}

// ---- the last step ----

#[test]
fn checkout_goes_to_the_rewritten_head() {
    let mut store = MappingStore::new();
    store.insert(oid(H3), oid(0x73)).unwrap();
    store.insert(oid(H1), oid(H1)).unwrap();
    assert_eq!(
        checkout_rewritten_history(&store, &oid(H3)),
        Ok(Reset { target: oid(0x73), hard: true, force: true })
    );
    assert_eq!(
        checkout_rewritten_history(&store, &oid(H1)),
        Ok(Reset { target: oid(H1), hard: true, force: true })
    );
}

#[test]
fn checkout_without_a_rewritten_head_is_a_fault() {
    let store = MappingStore::new();
    assert_eq!(
        checkout_rewritten_history(&store, &oid(H3)),
        Err(RewriteError::MissingHead(oid(H3)))
    );
}

// ---- walking ----

#[test]
fn histories_are_walked_parents_first() {
    let order = history_walk_order();
    assert!(order.topological);
    assert!(order.reverse);
}

#[test]
fn submodule_is_fetched_from_its_directory() {
    assert_eq!(submodule_url("sub"), "./sub");
    assert_eq!(submodule_url("vendor/lib"), "./vendor/lib");
    assert_eq!(submodule_url(""), "./");
}

#[test]
fn only_a_tree_that_lacks_the_entry_counts_as_missing() {
    assert_eq!(failed_lookup(true, true), PathLookup::NotFound);
    assert_eq!(failed_lookup(true, false), PathLookup::Failed);
    assert_eq!(failed_lookup(false, true), PathLookup::Failed);
    assert_eq!(failed_lookup(false, false), PathLookup::Failed);
}
