//! Building the asset tree from the entries of a directory walk.
//!
//! A walk may name a file before the directory that holds it. The loader
//! therefore offers what the tree refused again, as long as a pass over the
//! refused entries still gets one of them in.

use vstd::prelude::*;
use crate::assets::{kind_of_path, AssetView};
use crate::directory::{AssetDirectory, DirectoryView, TreeEntryView};
use crate::editor::EditorStateLabel;
use crate::path::{lemma_parent_and_name, parent_of};

verus! {

/// One entry of a directory walk: a path, whether it is a directory, and,
/// for an image, the handles under which the host has loaded it.
#[derive(Debug)]
pub struct WalkEntry {
    /// Path of the file or directory.
    pub path: String,
    /// Whether the path names a directory.
    pub is_dir: bool,
    /// Key of the engine's handle to the image; unused for anything else.
    pub bevy_handle: u64,
    /// Key of the GUI texture of the image; unused for anything else.
    pub egui_texture_id: u64,
}

/// The model of a `WalkEntry`.
pub struct WalkEntryView {
    pub path: Seq<char>,
    pub is_dir: bool,
    pub bevy_handle: u64,
    pub egui_texture_id: u64,
}

impl View for WalkEntry {
    type V = WalkEntryView;

    open spec fn view(&self) -> WalkEntryView {
        WalkEntryView {
            path: self.path@,
            is_dir: self.is_dir,
            bevy_handle: self.bevy_handle,
            egui_texture_id: self.egui_texture_id,
        }
    }
}

impl Clone for WalkEntry {
    fn clone(&self) -> (copy: Self)
        ensures
            copy@ == self@,
    {
        WalkEntry {
            path: self.path.clone(),
            is_dir: self.is_dir,
            bevy_handle: self.bevy_handle,
            egui_texture_id: self.egui_texture_id,
        }
    }
}

/// The models of a sequence of walk entries.
pub open spec fn walk_views_of(entries: Seq<WalkEntry>) -> Seq<WalkEntryView> {
    Seq::new(entries.len(), |i: int| entries[i]@)
}

impl DirectoryView {
    /// The tree after `entry` was offered to it, if the tree took it.
    pub open spec fn offered_entry(self, entry: WalkEntryView) -> Option<DirectoryView> {
        self.offered(entry.path, entry.is_dir, entry.bevy_handle, entry.egui_texture_id)
    }

    /// One pass: the entries are offered in order. Gives the tree after the
    /// pass and the entries that it refused, in their order.
    pub open spec fn offered_all(self, entries: Seq<WalkEntryView>) -> (
        DirectoryView,
        Seq<WalkEntryView>,
    )
        decreases entries.len(),
    {
        if entries.len() == 0 {
            (self, Seq::empty())
        } else {
            let (tree, refused) = self.offered_all(entries.drop_last());
            match tree.offered_entry(entries.last()) {
                Some(grown) => (grown, refused),
                None => (tree, refused.push(entries.last())),
            }
        }
    }

    /// Pass after pass over what the pass before refused, until a pass gets
    /// nothing in. Gives the final tree and the entries refused for good.
    pub open spec fn settled(self, entries: Seq<WalkEntryView>) -> (
        DirectoryView,
        Seq<WalkEntryView>,
    )
        decreases entries.len(),
    {
        let (tree, refused) = self.offered_all(entries);
        if refused.len() < entries.len() {
            tree.settled(refused)
        } else {
            (tree, refused)
        }
    }

    /// A pass refuses no more entries than it was given. A pass that refuses
    /// all of them leaves the tree as it was, and the tree has no place for
    /// any of them.
    pub proof fn lemma_offered_all_len(self, entries: Seq<WalkEntryView>)
        ensures
            self.offered_all(entries).1.len() <= entries.len(),
            self.offered_all(entries).1.len() == entries.len() ==> {
                &&& self.offered_all(entries).0 == self
                &&& self.offered_all(entries).1 == entries
                &&& forall|k: int|
                    0 <= k < entries.len() ==> self.offered_entry(#[trigger] entries[k]) is None
            },
        decreases entries.len(),
    {
        if entries.len() > 0 {
            let front = entries.drop_last();
            self.lemma_offered_all_len(front);
            let (tree, refused) = self.offered_all(entries);
            if refused.len() == entries.len() {
                assert(refused =~= entries);
                assert forall|k: int| 0 <= k < entries.len() implies self.offered_entry(
                    #[trigger] entries[k],
                ) is None by {
                    if k < front.len() {
                        assert(front[k] == entries[k]);
                    }
                }
            }
        } else {
            assert(self.offered_all(entries).1 =~= entries);
        }
    }

    /// When loading ends, the tree has no place for any entry that it
    /// refused, and it refused no more entries than it was given.
    pub proof fn lemma_settled_is_final(self, entries: Seq<WalkEntryView>)
        ensures
            self.settled(entries).1.len() <= entries.len(),
            forall|k: int|
                0 <= k < self.settled(entries).1.len() ==> self.settled(entries).0.offered_entry(
                    #[trigger] self.settled(entries).1[k],
                ) is None,
        decreases entries.len(),
    {
        self.lemma_offered_all_len(entries);
        let (tree, refused) = self.offered_all(entries);
        if refused.len() < entries.len() {
            tree.lemma_settled_is_final(refused);
        }
    }
}

impl AssetDirectory {
    /// Offers one walk entry to the tree. Says whether it was inserted.
    pub fn try_insert_walk_entry(&mut self, entry: &WalkEntry) -> (inserted: bool)
        ensures
            match old(self)@.offered_entry(entry@) {
                Some(tree) => inserted && final(self)@ == tree,
                None => !inserted && final(self)@ == old(self)@,
            },
    {
        self.try_insert(
            entry.path.as_str(),
            entry.is_dir,
            entry.bevy_handle,
            entry.egui_texture_id,
        )
    }

    /// One pass over `entries`: each is offered to the tree in order. Gives
    /// back those that the tree refused.
    pub fn offer_all(&mut self, entries: &Vec<WalkEntry>) -> (refused: Vec<WalkEntry>)
        ensures
            (final(self)@, walk_views_of(refused@)) == old(self)@.offered_all(
                walk_views_of(entries@),
            ),
    {
        let ghost start = self@;
        let ghost all = walk_views_of(entries@);
        let mut refused: Vec<WalkEntry> = Vec::new();
        let mut i: usize = 0;
        assert(all.take(0) =~= Seq::empty());
        assert(walk_views_of(refused@) =~= Seq::empty());
        while i < entries.len()
            invariant
                0 <= i <= entries.len(),
                all == walk_views_of(entries@),
                (self@, walk_views_of(refused@)) == start.offered_all(all.take(i as int)),
            decreases entries.len() - i,
        {
            let ghost refused_before = walk_views_of(refused@);
            proof {
                assert(all.take(i + 1).drop_last() =~= all.take(i as int));
                assert(all.take(i + 1).last() == entries@[i as int]@);
            }
            if !self.try_insert_walk_entry(&entries[i]) {
                refused.push(entries[i].clone());
                assert(walk_views_of(refused@) =~= refused_before.push(entries@[i as int]@));
            }
            i = i + 1;
        }
        assert(all.take(i as int) =~= all);
        refused
    }
}

/// Builds the tree below `root` from the entries of a directory walk, in
/// whatever order the walk gave them: offers them in order, then offers the
/// refused ones again, and so on until a pass gets nothing in. The assets are
/// there from then on, and the state of the editor says so. Gives back the
/// entries that never found a place.
pub fn load_assets_system(
    root: &mut AssetDirectory,
    entries: Vec<WalkEntry>,
    editor_state: &mut EditorStateLabel,
) -> (refused: Vec<WalkEntry>)
    ensures
        (final(root)@, walk_views_of(refused@)) == old(root)@.settled(walk_views_of(entries@)),
        refused@.len() <= entries@.len(),
        forall|k: int|
            0 <= k < refused@.len() ==> final(root)@.offered_entry((#[trigger] refused@[k])@)
                is None,
        *final(editor_state) == EditorStateLabel::PostInitializingAssets,
{
    let mut pending = entries;
    loop
        invariant
            root@.settled(walk_views_of(pending@)) == old(root)@.settled(walk_views_of(entries@)),
        decreases pending.len(),
    {
        let ghost before = root@;
        let ghost offered = walk_views_of(pending@);
        let refused = root.offer_all(&pending);
        proof {
            before.lemma_offered_all_len(offered);
        }
        if refused.len() >= pending.len() {
            *editor_state = EditorStateLabel::PostInitializingAssets;
            proof {
                old(root)@.lemma_settled_is_final(walk_views_of(entries@));
                assert forall|k: int| 0 <= k < refused@.len() implies root@.offered_entry(
                    (#[trigger] refused@[k])@,
                ) is None by {
                    assert(walk_views_of(refused@)[k] == refused@[k]@);
                }
            }
            return refused;
        }
        pending = refused;
    }
}

/// No two entries have the same path.
pub open spec fn paths_distinct(entries: Seq<WalkEntryView>) -> bool {
    forall|i: int, j: int| 0 <= i < j < entries.len() ==> entries[i].path != entries[j].path
}

/// Entry `j` is a directory with the path `path`.
pub open spec fn is_directory_at(entries: Seq<WalkEntryView>, j: int, path: Seq<char>) -> bool {
    0 <= j < entries.len() && entries[j].is_dir && entries[j].path == path
}

/// Some directory among `entries` has the path `path` and is not among the
/// refused ones.
pub open spec fn is_taken_directory(
    entries: Seq<WalkEntryView>,
    refused: Seq<WalkEntryView>,
    path: Seq<char>,
) -> bool {
    exists|j: int| #[trigger] is_directory_at(entries, j, path) && !refused.contains(entries[j])
}

/// What loading keeps true of the tree: its root has the path `root`, no
/// path occurs twice, every entry lies where its path says, and every
/// directory but the root has a longer path than the root.
pub open spec fn is_rooted(tree: DirectoryView, root: Seq<char>) -> bool {
    &&& tree.path == root
    &&& tree.paths_unique()
    &&& tree.well_formed()
    &&& forall|path: Seq<char>| #[trigger]
        tree.has_path(path) ==> path == root || path.len() > root.len()
}

/// None of the entries is in the tree yet, unless it has the root's path.
pub open spec fn is_fresh(tree: DirectoryView, entries: Seq<WalkEntryView>, root: Seq<char>) -> bool {
    forall|i: int|
        0 <= i < entries.len() && entries[i].path != root ==> !tree.has_path(
            (#[trigger] entries[i]).path,
        )
}

/// What a run of offers leaves behind, told over the entries that were
/// offered: the tree has gained exactly the directories that were not
/// refused, and the refused entries are entries that were offered.
pub open spec fn is_outcome_of(
    start: DirectoryView,
    entries: Seq<WalkEntryView>,
    root: Seq<char>,
    tree: DirectoryView,
    refused: Seq<WalkEntryView>,
) -> bool {
    &&& is_rooted(tree, root)
    &&& forall|k: int| 0 <= k < refused.len() ==> entries.contains(#[trigger] refused[k])
    &&& forall|path: Seq<char>| #[trigger]
        tree.has_path(path) <==> start.has_path(path) || is_taken_directory(
            entries,
            refused,
            path,
        )
}

impl DirectoryView {
    /// What one accepted offer does to a rooted tree that does not hold the
    /// entry yet: a directory adds its path, a file adds none, and the tree
    /// stays rooted.
    pub proof fn lemma_offer_taken(self, entry: WalkEntryView, root: Seq<char>)
        requires
            is_rooted(self, root),
            entry.path != root ==> !self.has_path(entry.path),
            self.offered_entry(entry) is Some,
        ensures
            is_rooted(self.offered_entry(entry)->0, root),
            entry.path != root,
            forall|path: Seq<char>| #[trigger]
                self.offered_entry(entry)->0.has_path(path) <==> self.has_path(path) || (
                entry.is_dir && path == entry.path),
    {
        let grown = self.offered_entry(entry)->0;
        let item = TreeEntryView::of_path(
            entry.path,
            entry.is_dir,
            entry.bevy_handle,
            entry.egui_texture_id,
        )->0;
        assert(item.path() == entry.path);
        self.lemma_with_entry(item);
        lemma_parent_and_name(entry.path);
        let parent = parent_of(entry.path)->0;
        assert(self.has_path(parent));
        assert(entry.path.len() > root.len());
        Self::lemma_leaf(entry.path);
        assert forall|path: Seq<char>| grown.occurrences(path) <= 1 by {
            assert(self.occurrences(path) <= 1);
            self.lemma_find(path);
        }
        assert forall|path: Seq<char>| #[trigger]
            grown.has_path(path) <==> self.has_path(path) || (entry.is_dir && path
                == entry.path) by {
            grown.lemma_find(path);
            self.lemma_find(path);
        }
    }

    /// One pass over entries with distinct paths, none of them in the tree
    /// yet: the tree gains exactly the directories that the pass did not
    /// refuse. A pass that refuses every entry leaves the tree as it was, and
    /// the tree then has no place for any of them.
    pub proof fn lemma_offered_all(self, entries: Seq<WalkEntryView>, root: Seq<char>)
        requires
            is_rooted(self, root),
            paths_distinct(entries),
            is_fresh(self, entries, root),
        ensures
            is_outcome_of(
                self,
                entries,
                root,
                self.offered_all(entries).0,
                self.offered_all(entries).1,
            ),
            paths_distinct(self.offered_all(entries).1),
            is_fresh(self.offered_all(entries).0, self.offered_all(entries).1, root),
            self.offered_all(entries).1.len() <= entries.len(),
            self.offered_all(entries).1.len() == entries.len() ==> {
                &&& self.offered_all(entries).0 == self
                &&& self.offered_all(entries).1 == entries
                &&& forall|j: int|
                    0 <= j < entries.len() ==> self.offered_entry(#[trigger] entries[j]) is None
            },
        decreases entries.len(),
    {
        let (tree, refused) = self.offered_all(entries);
        if entries.len() == 0 {
            assert forall|path: Seq<char>| #[trigger]
                tree.has_path(path) <==> self.has_path(path) || is_taken_directory(
                    entries,
                    refused,
                    path,
                ) by {
                if is_taken_directory(entries, refused, path) {
                    let j = choose|j: int| #[trigger]
                        is_directory_at(entries, j, path) && !refused.contains(entries[j]);
                    assert(false);
                }
            }
            assert(refused =~= entries);
        } else {
            let front = entries.drop_last();
            let last = entries.last();
            assert forall|i: int| 0 <= i < front.len() implies front[i] == entries[i] by {}
            assert(paths_distinct(front));
            assert(is_fresh(self, front, root)) by {
                assert forall|i: int| 0 <= i < front.len() && front[i].path != root implies !self.has_path(
                    (#[trigger] front[i]).path,
                ) by {
                    assert(front[i] == entries[i]);
                }
            }
            self.lemma_offered_all(front, root);
            let (before, refused_before) = self.offered_all(front);
            // The last entry is not in the tree that the pass has built so far.
            if last.path != root && before.has_path(last.path) {
                assert(!self.has_path(last.path));
                let j = choose|j: int| #[trigger]
                    is_directory_at(front, j, last.path) && !refused_before.contains(front[j]);
                assert(front[j] == entries[j]);
                assert(false);
            }
            // Every entry refused so far was offered before the last one.
            assert forall|k: int| 0 <= k < refused_before.len() implies {
                &&& entries.contains(#[trigger] refused_before[k])
                &&& refused_before[k].path != last.path
            } by {
                assert(front.contains(refused_before[k]));
                let j = choose|j: int| 0 <= j < front.len() && front[j] == refused_before[k];
                assert(entries[j] == refused_before[k]);
            }
            match before.offered_entry(last) {
                Some(grown) => {
                    before.lemma_offer_taken(last, root);
                    assert(tree == grown && refused == refused_before);
                    assert(!refused.contains(last)) by {
                        if refused.contains(last) {
                            let k = choose|k: int| 0 <= k < refused.len() && refused[k] == last;
                            assert(refused_before[k].path != last.path);
                        }
                    }
                    assert forall|path: Seq<char>| #[trigger]
                        tree.has_path(path) <==> self.has_path(path) || is_taken_directory(
                            entries,
                            refused,
                            path,
                        ) by {
                        if is_taken_directory(front, refused_before, path) {
                            let j = choose|j: int| #[trigger]
                                is_directory_at(front, j, path) && !refused_before.contains(
                                    front[j],
                                );
                            assert(is_directory_at(entries, j, path));
                        }
                        if last.is_dir && path == last.path {
                            assert(is_directory_at(entries, entries.len() - 1, path));
                        }
                        if is_taken_directory(entries, refused, path) {
                            let j = choose|j: int| #[trigger]
                                is_directory_at(entries, j, path) && !refused.contains(entries[j]);
                            if j < front.len() {
                                assert(is_directory_at(front, j, path));
                            }
                        }
                    }
                    assert(is_fresh(tree, refused, root)) by {
                        assert forall|k: int|
                            0 <= k < refused.len() && refused[k].path != root implies !tree.has_path(
                            (#[trigger] refused[k]).path,
                        ) by {
                            assert(refused_before[k].path != last.path);
                        }
                    }
                },
                None => {
                    assert(tree == before && refused == refused_before.push(last));
                    assert forall|k: int| 0 <= k < refused.len() implies entries.contains(
                        #[trigger] refused[k],
                    ) by {
                        if k < refused_before.len() {
                            assert(refused[k] == refused_before[k]);
                        } else {
                            assert(entries[entries.len() - 1] == last);
                        }
                    }
                    assert(paths_distinct(refused)) by {
                        assert forall|i: int, j: int|
                            0 <= i < j < refused.len() implies refused[i].path
                            != refused[j].path by {
                            assert(refused[i] == refused_before[i]);
                            if j < refused_before.len() {
                                assert(refused[j] == refused_before[j]);
                            }
                        }
                    }
                    assert forall|path: Seq<char>| #[trigger]
                        tree.has_path(path) <==> self.has_path(path) || is_taken_directory(
                            entries,
                            refused,
                            path,
                        ) by {
                        if is_taken_directory(front, refused_before, path) {
                            let j = choose|j: int| #[trigger]
                                is_directory_at(front, j, path) && !refused_before.contains(
                                    front[j],
                                );
                            assert(is_directory_at(entries, j, path));
                            if refused.contains(entries[j]) {
                                let k = choose|k: int|
                                    0 <= k < refused.len() && refused[k] == entries[j];
                                if k < refused_before.len() {
                                    assert(refused_before[k] == refused[k]);
                                    assert(refused_before.contains(front[j]));
                                }
                            }
                        }
                        if is_taken_directory(entries, refused, path) {
                            let j = choose|j: int| #[trigger]
                                is_directory_at(entries, j, path) && !refused.contains(entries[j]);
                            if j < front.len() {
                                assert(is_directory_at(front, j, path));
                                if refused_before.contains(front[j]) {
                                    let k = choose|k: int|
                                        0 <= k < refused_before.len() && refused_before[k]
                                            == front[j];
                                    assert(refused[k] == entries[j]);
                                }
                            } else {
                                assert(refused[refused.len() - 1] == last);
                            }
                        }
                    }
                    assert(is_fresh(tree, refused, root)) by {
                        assert forall|k: int|
                            0 <= k < refused.len() && refused[k].path != root implies !tree.has_path(
                            (#[trigger] refused[k]).path,
                        ) by {
                            if k < refused_before.len() {
                                assert(refused[k] == refused_before[k]);
                            }
                        }
                    }
                    if refused.len() == entries.len() {
                        assert(refused =~= entries);
                        assert forall|j: int| 0 <= j < entries.len() implies self.offered_entry(
                            #[trigger] entries[j],
                        ) is None by {
                            if j < front.len() {
                                assert(self.offered_entry(front[j]) is None);
                            }
                        }
                    }
                },
            }
        }
    }
}

impl DirectoryView {
    /// Loading entries with distinct paths, none of them in the tree yet:
    /// the tree gains exactly the directories that were not refused for
    /// good, and in the end it has no place for any refused entry.
    pub proof fn lemma_settled(self, entries: Seq<WalkEntryView>, root: Seq<char>)
        requires
            is_rooted(self, root),
            paths_distinct(entries),
            is_fresh(self, entries, root),
        ensures
            is_outcome_of(self, entries, root, self.settled(entries).0, self.settled(entries).1),
            forall|k: int|
                0 <= k < self.settled(entries).1.len() ==> self.settled(entries).0.offered_entry(
                    #[trigger] self.settled(entries).1[k],
                ) is None,
        decreases entries.len(),
    {
        self.lemma_offered_all(entries, root);
        let (passed, again) = self.offered_all(entries);
        if again.len() < entries.len() {
            passed.lemma_settled(again, root);
            let (tree, refused) = passed.settled(again);
            assert forall|k: int| 0 <= k < refused.len() implies entries.contains(
                #[trigger] refused[k],
            ) by {
                assert(again.contains(refused[k]));
                let j = choose|j: int| 0 <= j < again.len() && again[j] == refused[k];
                assert(entries.contains(again[j]));
            }
            assert forall|path: Seq<char>| #[trigger]
                tree.has_path(path) <==> self.has_path(path) || is_taken_directory(
                    entries,
                    refused,
                    path,
                ) by {
                if is_taken_directory(entries, again, path) {
                    let j = choose|j: int| #[trigger]
                        is_directory_at(entries, j, path) && !again.contains(entries[j]);
                    if refused.contains(entries[j]) {
                        let k = choose|k: int| 0 <= k < refused.len() && refused[k] == entries[j];
                        assert(again.contains(refused[k]));
                    }
                }
                if is_taken_directory(again, refused, path) {
                    let j = choose|j: int| #[trigger]
                        is_directory_at(again, j, path) && !refused.contains(again[j]);
                    assert(entries.contains(again[j]));
                    let i = choose|i: int| 0 <= i < entries.len() && entries[i] == again[j];
                    assert(is_directory_at(entries, i, path));
                }
                if is_taken_directory(entries, refused, path) {
                    let j = choose|j: int| #[trigger]
                        is_directory_at(entries, j, path) && !refused.contains(entries[j]);
                    if again.contains(entries[j]) {
                        let k = choose|k: int| 0 <= k < again.len() && again[k] == entries[j];
                        assert(is_directory_at(again, k, path));
                    }
                }
            }
        }
    }
}

/// Every directory of the listing, but one with the root's own path, lies in
/// the root or in another directory of the listing.
pub open spec fn is_closed_under_parents(root: Seq<char>, entries: Seq<WalkEntryView>) -> bool {
    forall|j: int|
        0 <= j < entries.len() && (#[trigger] entries[j]).is_dir && entries[j].path != root ==> {
            &&& parent_of(entries[j].path) is Some
            &&& parent_of(entries[j].path)->0 == root || exists|k: int| #[trigger]
                is_directory_at(entries, k, parent_of(entries[j].path)->0)
        }
}

/// The tree that loading builds from a listing with distinct paths, in
/// whatever order the listing is: no path names two directories of the tree,
/// every entry lies in the directory that its path names, a path is found
/// exactly when it is the root's or that of a listed directory that was taken
/// in, and the tree has no place for what was refused.
pub proof fn lemma_loaded_paths(root: Seq<char>, entries: Seq<WalkEntryView>)
    requires
        paths_distinct(entries),
    ensures
        ({
            let (tree, refused) = DirectoryView::leaf(root).settled(entries);
            &&& tree.path == root
            &&& tree.paths_unique()
            &&& tree.well_formed()
            &&& forall|path: Seq<char>| #[trigger]
                tree.has_path(path) <==> path == root || is_taken_directory(entries, refused, path)
            &&& forall|path: Seq<char>|
                match #[trigger] tree.find(path) {
                    Some(dir) => dir.path == path && tree.occurrences(path) == 1,
                    None => tree.occurrences(path) == 0 && path != root && !is_taken_directory(
                        entries,
                        refused,
                        path,
                    ),
                }
            &&& forall|k: int|
                0 <= k < refused.len() ==> entries.contains(#[trigger] refused[k])
                    && tree.offered_entry(refused[k]) is None
        }),
{
    let start = DirectoryView::leaf(root);
    DirectoryView::lemma_leaf(root);
    start.lemma_root_found();
    assert forall|path: Seq<char>| #[trigger] start.has_path(path) <==> path == root by {
        start.lemma_find(path);
    }
    assert(is_rooted(start, root));
    assert(is_fresh(start, entries, root));
    start.lemma_settled(entries, root);
    let (tree, refused) = start.settled(entries);
    assert forall|path: Seq<char>|
        match #[trigger] tree.find(path) {
            Some(dir) => dir.path == path && tree.occurrences(path) == 1,
            None => tree.occurrences(path) == 0 && path != root && !is_taken_directory(
                entries,
                refused,
                path,
            ),
        } by {
        tree.lemma_find(path);
        assert(tree.occurrences(path) <= 1);
        assert(tree.has_path(path) <==> path == root || is_taken_directory(
            entries,
            refused,
            path,
        ));
    }
}

/// In the tree that loading builds from a listing with distinct paths in
/// which every directory lies in the root or in another listed directory,
/// every listed directory is found, and found once, in whatever order the
/// listing is.
pub proof fn lemma_closed_listing_loaded(root: Seq<char>, entries: Seq<WalkEntryView>, j: int)
    requires
        paths_distinct(entries),
        is_closed_under_parents(root, entries),
        0 <= j < entries.len(),
        entries[j].is_dir,
    ensures
        ({
            let tree = DirectoryView::leaf(root).settled(entries).0;
            &&& tree.find(entries[j].path) is Some
            &&& tree.find(entries[j].path)->0.path == entries[j].path
            &&& tree.occurrences(entries[j].path) == 1
        }),
    decreases entries[j].path.len(),
{
    let (tree, refused) = DirectoryView::leaf(root).settled(entries);
    let path = entries[j].path;
    lemma_loaded_paths(root, entries);
    tree.lemma_find(path);
    if path != root {
        let parent = parent_of(path)->0;
        lemma_parent_and_name(path);
        if parent != root {
            let k = choose|k: int| #[trigger] is_directory_at(entries, k, parent);
            lemma_closed_listing_loaded(root, entries, k);
            tree.lemma_find(parent);
        }
        assert(tree.has_path(parent));
        let item = TreeEntryView::Directory(DirectoryView::leaf(path));
        tree.lemma_placed_iff_has_path(parent, item);
        assert(tree.offered_entry(entries[j]) is Some);
        if refused.contains(entries[j]) {
            let k = choose|k: int| 0 <= k < refused.len() && refused[k] == entries[j];
            assert(tree.offered_entry(refused[k]) is None);
        }
        assert(is_directory_at(entries, j, path));
        assert(is_taken_directory(entries, refused, path));
    }
    let found = tree.find(path);
    assert(match found {
        Some(dir) => dir.path == path && tree.occurrences(path) == 1,
        None => tree.occurrences(path) == 0 && path != root && !is_taken_directory(
            entries,
            refused,
            path,
        ),
    });
}

/// Entry `j` is a file with the path `path`.
pub open spec fn is_file_at(entries: Seq<WalkEntryView>, j: int, path: Seq<char>) -> bool {
    0 <= j < entries.len() && !entries[j].is_dir && entries[j].path == path
}

/// Some file among `entries` has the path `path` and is not among the
/// refused ones.
pub open spec fn is_taken_file(
    entries: Seq<WalkEntryView>,
    refused: Seq<WalkEntryView>,
    path: Seq<char>,
) -> bool {
    exists|j: int| #[trigger] is_file_at(entries, j, path) && !refused.contains(entries[j])
}

impl DirectoryView {
    /// What one accepted offer does to the assets of a rooted tree that does
    /// not hold the entry yet: a file is held from then on, and what was
    /// held stays held.
    pub proof fn lemma_offer_taken_assets(self, entry: WalkEntryView, root: Seq<char>, path: Seq<char>)
        requires
            is_rooted(self, root),
            entry.path != root ==> !self.has_path(entry.path),
            self.offered_entry(entry) is Some,
        ensures
            self.offered_entry(entry)->0.has_asset(path) <==> self.has_asset(path) || (
            !entry.is_dir && entry.path == path),
    {
        let item = TreeEntryView::of_path(
            entry.path,
            entry.is_dir,
            entry.bevy_handle,
            entry.egui_texture_id,
        )->0;
        assert(item.path() == entry.path);
        self.lemma_offer_taken(entry, root);
        self.lemma_with_entry_assets(item, path);
    }

    /// One pass over entries with distinct paths, none of them in the tree
    /// yet: the tree holds what it held and the files that the pass did not
    /// refuse.
    pub proof fn lemma_offered_all_assets(
        self,
        entries: Seq<WalkEntryView>,
        root: Seq<char>,
        path: Seq<char>,
    )
        requires
            is_rooted(self, root),
            paths_distinct(entries),
            is_fresh(self, entries, root),
        ensures
            self.offered_all(entries).0.has_asset(path) <==> self.has_asset(path) || is_taken_file(
                entries,
                self.offered_all(entries).1,
                path,
            ),
        decreases entries.len(),
    {
        let (tree, refused) = self.offered_all(entries);
        if entries.len() == 0 {
            if is_taken_file(entries, refused, path) {
                let j = choose|j: int| #[trigger]
                    is_file_at(entries, j, path) && !refused.contains(entries[j]);
                assert(false);
            }
        } else {
            let front = entries.drop_last();
            let last = entries.last();
            assert forall|i: int| 0 <= i < front.len() implies front[i] == entries[i] by {}
            assert(paths_distinct(front));
            assert(is_fresh(self, front, root)) by {
                assert forall|i: int| 0 <= i < front.len() && front[i].path != root implies !self.has_path(
                    (#[trigger] front[i]).path,
                ) by {
                    assert(front[i] == entries[i]);
                }
            }
            self.lemma_offered_all(front, root);
            self.lemma_offered_all_assets(front, root, path);
            let (before, refused_before) = self.offered_all(front);
            if last.path != root && before.has_path(last.path) {
                assert(!self.has_path(last.path));
                let j = choose|j: int| #[trigger]
                    is_directory_at(front, j, last.path) && !refused_before.contains(front[j]);
                assert(front[j] == entries[j]);
                assert(false);
            }
            assert forall|k: int| 0 <= k < refused_before.len() implies #[trigger] refused_before[k].path
                != last.path by {
                assert(front.contains(refused_before[k]));
                let j = choose|j: int| 0 <= j < front.len() && front[j] == refused_before[k];
                assert(entries[j] == refused_before[k]);
            }
            let taken_before = is_taken_file(front, refused_before, path);
            let taken = is_taken_file(entries, refused, path);
            match before.offered_entry(last) {
                Some(grown) => {
                    before.lemma_offer_taken_assets(last, root, path);
                    assert(refused == refused_before);
                    assert(!refused.contains(last)) by {
                        if refused.contains(last) {
                            let k = choose|k: int| 0 <= k < refused.len() && refused[k] == last;
                            assert(refused_before[k].path != last.path);
                        }
                    }
                    if taken_before {
                        let j = choose|j: int| #[trigger]
                            is_file_at(front, j, path) && !refused_before.contains(front[j]);
                        assert(is_file_at(entries, j, path));
                    }
                    if !last.is_dir && last.path == path {
                        assert(is_file_at(entries, entries.len() - 1, path));
                    }
                    if taken {
                        let j = choose|j: int| #[trigger]
                            is_file_at(entries, j, path) && !refused.contains(entries[j]);
                        if j < front.len() {
                            assert(is_file_at(front, j, path));
                        }
                    }
                },
                None => {
                    assert(tree == before && refused == refused_before.push(last));
                    if taken_before {
                        let j = choose|j: int| #[trigger]
                            is_file_at(front, j, path) && !refused_before.contains(front[j]);
                        assert(is_file_at(entries, j, path));
                        if refused.contains(entries[j]) {
                            let k = choose|k: int|
                                0 <= k < refused.len() && refused[k] == entries[j];
                            if k < refused_before.len() {
                                assert(refused_before[k] == refused[k]);
                                assert(refused_before.contains(front[j]));
                            }
                        }
                    }
                    if taken {
                        let j = choose|j: int| #[trigger]
                            is_file_at(entries, j, path) && !refused.contains(entries[j]);
                        if j < front.len() {
                            assert(is_file_at(front, j, path));
                            if refused_before.contains(front[j]) {
                                let k = choose|k: int|
                                    0 <= k < refused_before.len() && refused_before[k] == front[j];
                                assert(refused[k] == entries[j]);
                            }
                        } else {
                            assert(refused[refused.len() - 1] == last);
                        }
                    }
                },
            }
        }
    }

    /// Loading entries with distinct paths, none of them in the tree yet:
    /// the tree holds what it held and the files that were not refused for
    /// good.
    pub proof fn lemma_settled_assets(
        self,
        entries: Seq<WalkEntryView>,
        root: Seq<char>,
        path: Seq<char>,
    )
        requires
            is_rooted(self, root),
            paths_distinct(entries),
            is_fresh(self, entries, root),
        ensures
            self.settled(entries).0.has_asset(path) <==> self.has_asset(path) || is_taken_file(
                entries,
                self.settled(entries).1,
                path,
            ),
        decreases entries.len(),
    {
        self.lemma_offered_all(entries, root);
        self.lemma_offered_all_assets(entries, root, path);
        let (passed, again) = self.offered_all(entries);
        if again.len() < entries.len() {
            passed.lemma_settled(again, root);
            passed.lemma_settled_assets(again, root, path);
            let (tree, refused) = passed.settled(again);
            if is_taken_file(entries, again, path) {
                let j = choose|j: int| #[trigger]
                    is_file_at(entries, j, path) && !again.contains(entries[j]);
                if refused.contains(entries[j]) {
                    let k = choose|k: int| 0 <= k < refused.len() && refused[k] == entries[j];
                    assert(again.contains(refused[k]));
                }
            }
            if is_taken_file(again, refused, path) {
                let j = choose|j: int| #[trigger]
                    is_file_at(again, j, path) && !refused.contains(again[j]);
                assert(entries.contains(again[j]));
                let i = choose|i: int| 0 <= i < entries.len() && entries[i] == again[j];
                assert(is_file_at(entries, i, path));
            }
            if is_taken_file(entries, refused, path) {
                let j = choose|j: int| #[trigger]
                    is_file_at(entries, j, path) && !refused.contains(entries[j]);
                if again.contains(entries[j]) {
                    let k = choose|k: int| 0 <= k < again.len() && again[k] == entries[j];
                    assert(is_file_at(again, k, path));
                }
            }
        }
    }
}

/// In the tree that loading builds from a listing with distinct paths, the
/// assets that are found by their paths are the listed files that were taken
/// in.
pub proof fn lemma_loaded_assets(root: Seq<char>, entries: Seq<WalkEntryView>, path: Seq<char>)
    requires
        paths_distinct(entries),
    ensures
        ({
            let (tree, refused) = DirectoryView::leaf(root).settled(entries);
            tree.has_asset(path) <==> is_taken_file(entries, refused, path)
        }),
{
    let start = DirectoryView::leaf(root);
    DirectoryView::lemma_leaf(root);
    start.lemma_root_found();
    assert forall|q: Seq<char>| #[trigger] start.has_path(q) <==> q == root by {
        start.lemma_find(q);
    }
    assert(is_rooted(start, root));
    assert(is_fresh(start, entries, root));
    start.lemma_settled_assets(entries, root, path);
    if start.has_asset(path) {
        let holder = parent_of(path)->0;
        start.lemma_find(holder);
        assert(start.find(holder) == Some(start));
        assert(start.assets =~= Seq::<AssetView>::empty());
        assert(false);
    }
}

/// In the tree that loading builds from a listing with distinct paths in
/// which every directory lies in the root or in another listed directory,
/// every listed file of a supported kind that lies in the root or in a listed
/// directory is held by that directory, in whatever order the listing is.
pub proof fn lemma_closed_listing_files_loaded(
    root: Seq<char>,
    entries: Seq<WalkEntryView>,
    j: int,
)
    requires
        paths_distinct(entries),
        is_closed_under_parents(root, entries),
        0 <= j < entries.len(),
        !entries[j].is_dir,
        kind_of_path(entries[j].path) is Some,
        parent_of(entries[j].path) is Some,
        parent_of(entries[j].path)->0 == root || exists|k: int| #[trigger]
            is_directory_at(entries, k, parent_of(entries[j].path)->0),
    ensures
        ({
            let tree = DirectoryView::leaf(root).settled(entries).0;
            &&& tree.has_asset(entries[j].path)
            &&& tree.find(parent_of(entries[j].path)->0) is Some
        }),
{
    let (tree, refused) = DirectoryView::leaf(root).settled(entries);
    let path = entries[j].path;
    let parent = parent_of(path)->0;
    lemma_loaded_paths(root, entries);
    lemma_loaded_assets(root, entries, path);
    if parent != root {
        let k = choose|k: int| #[trigger] is_directory_at(entries, k, parent);
        lemma_closed_listing_loaded(root, entries, k);
    }
    tree.lemma_find(parent);
    assert(tree.has_path(parent));
    let item = TreeEntryView::of_path(
        path,
        false,
        entries[j].bevy_handle,
        entries[j].egui_texture_id,
    )->0;
    assert(item.path() == path);
    tree.lemma_placed_iff_has_path(parent, item);
    assert(tree.offered_entry(entries[j]) is Some);
    if refused.contains(entries[j]) {
        let k = choose|k: int| 0 <= k < refused.len() && refused[k] == entries[j];
        assert(tree.offered_entry(refused[k]) is None);
    }
    assert(is_file_at(entries, j, path));
    assert(is_taken_file(entries, refused, path));
}

} // verus!
