//! What holds of every asset tree: how often a path occurs in it, what an
//! insertion does to that, and that every entry lies in the directory its
//! path names.

use vstd::prelude::*;
use crate::assets::AssetView;
use crate::directory::{
    is_first_with_path, lemma_position_of_concat, lemma_position_of_path, position_of_path,
    DirectoryView, TreeEntryView,
};
use crate::path::parent_of;

verus! {

/// How many of the directories in `nodes` have the given path.
pub open spec fn count_path(nodes: Seq<DirectoryView>, path: Seq<char>) -> nat
    decreases nodes.len(),
{
    if nodes.len() == 0 {
        0
    } else {
        let here: nat = if nodes.last().path == path {
            1
        } else {
            0
        };
        count_path(nodes.drop_last(), path) + here
    }
}

/// Counting in two sequences laid end to end adds up.
pub proof fn lemma_count_concat(a: Seq<DirectoryView>, b: Seq<DirectoryView>, path: Seq<char>)
    ensures
        count_path(a + b, path) == count_path(a, path) + count_path(b, path),
    decreases b.len(),
{
    if b.len() == 0 {
        assert(a + b =~= a);
    } else {
        lemma_count_concat(a, b.drop_last(), path);
        assert((a + b).drop_last() =~= a + b.drop_last());
        assert((a + b).last() == b.last());
    }
}

/// A path is found exactly when it is counted at least once.
pub proof fn lemma_count_position(nodes: Seq<DirectoryView>, path: Seq<char>)
    ensures
        count_path(nodes, path) > 0 <==> position_of_path(nodes, path) >= 0,
    decreases nodes.len(),
{
    if nodes.len() > 0 {
        lemma_count_position(nodes.drop_last(), path);
    }
}

/// A single directory counts once for its own path.
pub proof fn lemma_count_one(dir: DirectoryView, path: Seq<char>)
    ensures
        count_path(seq![dir], path) == if dir.path == path {
            1nat
        } else {
            0nat
        },
{
    let one = seq![dir];
    assert(one.drop_last() =~= Seq::<DirectoryView>::empty());
    assert(count_path(one.drop_last(), path) == 0);
}

impl TreeEntryView {
    /// How many directories with the given path the entry brings along.
    pub open spec fn occurrences(self, path: Seq<char>) -> nat {
        match self {
            TreeEntryView::Directory(dir) => dir.occurrences(path),
            TreeEntryView::Asset(_) => 0,
        }
    }

    /// Whether the entry, if it is a directory, holds its own entries where
    /// their paths say.
    pub open spec fn well_formed(self) -> bool {
        match self {
            TreeEntryView::Directory(dir) => dir.well_formed(),
            TreeEntryView::Asset(_) => true,
        }
    }
}

impl DirectoryView {
    /// How many directories of the tree have the given path.
    pub open spec fn occurrences(self, path: Seq<char>) -> nat {
        count_path(self.nodes(), path)
    }

    /// No two directories of the tree have the same path.
    pub open spec fn paths_unique(self) -> bool {
        forall|path: Seq<char>| self.occurrences(path) <= 1
    }

    /// Every directory and every asset of the tree lies in the directory
    /// that its path names as its parent.
    pub open spec fn well_formed(self) -> bool
        decreases self,
    {
        &&& forall|i: int|
            0 <= i < self.assets.len() ==> parent_of((#[trigger] self.assets[i]).path()) == Some(
                self.path,
            )
        &&& forall|i: int|
            0 <= i < self.children.len() ==> parent_of((#[trigger] self.children[i]).path)
                == Some(self.path)
        &&& Self::forest_well_formed(self.children)
    }

    /// Every tree of the sequence is well formed.
    pub open spec fn forest_well_formed(dirs: Seq<DirectoryView>) -> bool
        decreases dirs,
    {
        if dirs.len() == 0 {
            true
        } else {
            Self::forest_well_formed(dirs.drop_last()) && dirs.last().well_formed()
        }
    }

    /// `find` gives a directory exactly when the path occurs in the tree, and
    /// then one that has the path and that no directory with the path comes
    /// before.
    pub proof fn lemma_find(self, path: Seq<char>)
        ensures
            self.find(path) is Some <==> self.has_path(path),
            self.has_path(path) <==> self.occurrences(path) > 0,
            self.find(path) is Some ==> self.find(path)->0.path == path && is_first_with_path(
                self.nodes(),
                path,
                position_of_path(self.nodes(), path),
            ),
            self.find(path) is None ==> forall|i: int|
                0 <= i < self.nodes().len() ==> self.nodes()[i].path != path,
    {
        lemma_position_of_path(self.nodes(), path);
        lemma_count_position(self.nodes(), path);
    }

    /// The root is the first directory of its tree, so its own path is
    /// always found.
    pub proof fn lemma_root_found(self)
        ensures
            self.nodes().len() > 0,
            self.nodes()[0] == self,
            self.has_path(self.path),
            self.find(self.path) == Some(self),
    {
        let nodes = self.nodes();
        assert(nodes[0] == self);
        lemma_position_of_path(nodes, self.path);
        if position_of_path(nodes, self.path) == -1 {
            assert(nodes[0].path != self.path);
        }
        let at = position_of_path(nodes, self.path);
        if at > 0 {
            assert(nodes[0].path != self.path);
        }
    }

    /// An empty directory is a tree of one directory.
    pub proof fn lemma_leaf(path: Seq<char>)
        ensures
            Self::leaf(path).nodes() == seq![Self::leaf(path)],
            Self::leaf(path).well_formed(),
            Self::leaf(path).paths_unique(),
            forall|q: Seq<char>|
                Self::leaf(path).occurrences(q) == if q == path {
                    1nat
                } else {
                    0nat
                },
    {
        let leaf = Self::leaf(path);
        assert(Self::forest_nodes(leaf.children) =~= Seq::empty());
        assert(leaf.nodes() =~= seq![leaf]);
        assert forall|q: Seq<char>|
            leaf.occurrences(q) == if q == path {
                1nat
            } else {
                0nat
            } by {
            lemma_count_one(leaf, q);
        }
    }

    /// What an insertion does to the count of a path: the directories that
    /// the entry brings along are added, and nothing else changes.
    pub proof fn lemma_placed_occurrences(
        self,
        parent: Seq<char>,
        entry: TreeEntryView,
        path: Seq<char>,
    )
        requires
            self.placed(parent, entry) is Some,
        ensures
            self.placed(parent, entry)->0.occurrences(path) == self.occurrences(path)
                + entry.occurrences(path),
            self.placed(parent, entry)->0.path == self.path,
            self.placed(parent, entry)->0.name == self.name,
        decreases self, 1nat,
    {
        let grown = self.placed(parent, entry)->0;
        lemma_count_concat(seq![self], Self::forest_nodes(self.children), path);
        lemma_count_concat(seq![grown], Self::forest_nodes(grown.children), path);
        lemma_count_one(self, path);
        lemma_count_one(grown, path);
        if self.path == parent {
            match entry {
                TreeEntryView::Directory(dir) => {
                    let children = self.children.push(dir);
                    assert(children.drop_last() =~= self.children);
                    assert(children.last() == dir);
                    lemma_count_concat(Self::forest_nodes(self.children), dir.nodes(), path);
                },
                TreeEntryView::Asset(_) => {},
            }
        } else {
            Self::lemma_forest_placed_occurrences(self.children, parent, entry, path);
        }
    }

    /// The same for several trees.
    pub proof fn lemma_forest_placed_occurrences(
        dirs: Seq<DirectoryView>,
        parent: Seq<char>,
        entry: TreeEntryView,
        path: Seq<char>,
    )
        requires
            Self::forest_placed(dirs, parent, entry) is Some,
        ensures
            count_path(Self::forest_nodes(Self::forest_placed(dirs, parent, entry)->0), path)
                == count_path(Self::forest_nodes(dirs), path) + entry.occurrences(path),
            Self::forest_placed(dirs, parent, entry)->0.len() == dirs.len(),
            forall|i: int|
                0 <= i < dirs.len() ==> (#[trigger] Self::forest_placed(
                    dirs,
                    parent,
                    entry,
                )->0[i]).path == dirs[i].path,
        decreases dirs, 0nat,
    {
        let grown = Self::forest_placed(dirs, parent, entry)->0;
        let front = dirs.drop_last();
        lemma_count_concat(Self::forest_nodes(front), dirs.last().nodes(), path);
        match Self::forest_placed(front, parent, entry) {
            Some(grown_front) => {
                Self::lemma_forest_placed_occurrences(front, parent, entry, path);
                assert(grown.drop_last() =~= grown_front);
                assert(grown.last() == dirs.last());
                lemma_count_concat(Self::forest_nodes(grown_front), dirs.last().nodes(), path);
                assert forall|i: int| 0 <= i < dirs.len() implies (#[trigger] grown[i]).path
                    == dirs[i].path by {
                    if i < front.len() {
                        assert(grown[i] == grown_front[i]);
                        assert(front[i] == dirs[i]);
                    }
                }
            },
            None => {
                let tree = dirs.last().placed(parent, entry)->0;
                dirs.last().lemma_placed_occurrences(parent, entry, path);
                assert(grown.drop_last() =~= front);
                assert(grown.last() == tree);
                lemma_count_concat(Self::forest_nodes(front), tree.nodes(), path);
                assert forall|i: int| 0 <= i < dirs.len() implies (#[trigger] grown[i]).path
                    == dirs[i].path by {
                    if i < front.len() {
                        assert(grown[i] == front[i]);
                        assert(front[i] == dirs[i]);
                    }
                }
            },
        }
    }

    /// An entry that is put where its path says keeps a well-formed tree
    /// well formed.
    pub proof fn lemma_placed_well_formed(self, parent: Seq<char>, entry: TreeEntryView)
        requires
            self.well_formed(),
            entry.well_formed(),
            parent_of(entry.path()) == Some(parent),
            self.placed(parent, entry) is Some,
        ensures
            self.placed(parent, entry)->0.well_formed(),
        decreases self, 1nat,
    {
        let grown = self.placed(parent, entry)->0;
        if self.path == parent {
            match entry {
                TreeEntryView::Directory(dir) => {
                    assert(grown.children.drop_last() =~= self.children);
                    assert(grown.children.last() == dir);
                    assert forall|i: int| 0 <= i < grown.children.len() implies parent_of(
                        (#[trigger] grown.children[i]).path,
                    ) == Some(grown.path) by {
                        if i < self.children.len() {
                            assert(grown.children[i] == self.children[i]);
                        }
                    }
                },
                TreeEntryView::Asset(asset) => {
                    assert forall|i: int| 0 <= i < grown.assets.len() implies parent_of(
                        (#[trigger] grown.assets[i]).path(),
                    ) == Some(grown.path) by {
                        if i < self.assets.len() {
                            assert(grown.assets[i] == self.assets[i]);
                        }
                    }
                },
            }
        } else {
            Self::lemma_forest_placed_well_formed(self.children, parent, entry);
            Self::lemma_forest_placed_occurrences(self.children, parent, entry, parent);
            assert forall|i: int| 0 <= i < grown.children.len() implies parent_of(
                (#[trigger] grown.children[i]).path,
            ) == Some(grown.path) by {
                assert(grown.children[i].path == self.children[i].path);
            }
        }
    }

    /// The same for several trees.
    pub proof fn lemma_forest_placed_well_formed(
        dirs: Seq<DirectoryView>,
        parent: Seq<char>,
        entry: TreeEntryView,
    )
        requires
            Self::forest_well_formed(dirs),
            entry.well_formed(),
            parent_of(entry.path()) == Some(parent),
            Self::forest_placed(dirs, parent, entry) is Some,
        ensures
            Self::forest_well_formed(Self::forest_placed(dirs, parent, entry)->0),
        decreases dirs, 0nat,
    {
        let grown = Self::forest_placed(dirs, parent, entry)->0;
        let front = dirs.drop_last();
        match Self::forest_placed(front, parent, entry) {
            Some(grown_front) => {
                Self::lemma_forest_placed_well_formed(front, parent, entry);
                assert(grown.drop_last() =~= grown_front);
                assert(grown.last() == dirs.last());
            },
            None => {
                dirs.last().lemma_placed_well_formed(parent, entry);
                assert(grown.drop_last() =~= front);
            },
        }
    }

    /// Inserting an entry where its path says keeps a well-formed tree well
    /// formed and adds to the count of each path what the entry brings.
    pub proof fn lemma_with_entry(self, entry: TreeEntryView)
        requires
            self.with_entry(entry) is Some,
        ensures
            self.with_entry(entry)->0.path == self.path,
            forall|path: Seq<char>|
                self.with_entry(entry)->0.occurrences(path) == self.occurrences(path)
                    + entry.occurrences(path),
            self.well_formed() && entry.well_formed() ==> self.with_entry(entry)->0.well_formed(),
            parent_of(entry.path()) is Some,
            self.has_path(parent_of(entry.path())->0),
    {
        let parent = parent_of(entry.path())->0;
        self.lemma_placed_iff_has_path(parent, entry);
        assert forall|path: Seq<char>|
            self.with_entry(entry)->0.occurrences(path) == self.occurrences(path)
                + entry.occurrences(path) by {
            self.lemma_placed_occurrences(parent, entry, path);
        }
        self.lemma_placed_occurrences(parent, entry, parent);
        if self.well_formed() && entry.well_formed() {
            self.lemma_placed_well_formed(parent, entry);
        }
    }

    /// A tree with unique paths keeps them unique when an empty directory
    /// with a path that the tree does not have is inserted; the new path
    /// is then found, and every other path is found as before.
    pub proof fn lemma_new_directory_keeps_paths_unique(self, path: Seq<char>)
        requires
            self.paths_unique(),
            !self.has_path(path),
            self.with_directory(Self::leaf(path)) is Some,
        ensures
            self.with_directory(Self::leaf(path))->0.paths_unique(),
            forall|q: Seq<char>|
                self.with_directory(Self::leaf(path))->0.has_path(q) <==> (self.has_path(q) || q
                    == path),
    {
        let grown = self.with_directory(Self::leaf(path))->0;
        self.lemma_with_entry(TreeEntryView::Directory(Self::leaf(path)));
        Self::lemma_leaf(path);
        self.lemma_find(path);
        assert forall|q: Seq<char>| grown.occurrences(q) <= 1 by {
            assert(self.occurrences(q) <= 1);
        }
        assert forall|q: Seq<char>| grown.has_path(q) <==> (self.has_path(q) || q == path) by {
            grown.lemma_find(q);
            self.lemma_find(q);
        }
    }
}

/// Whether one of the assets has the given path.
pub open spec fn holds_asset(assets: Seq<AssetView>, path: Seq<char>) -> bool {
    exists|k: int| 0 <= k < assets.len() && (#[trigger] assets[k]).path() == path
}

impl TreeEntryView {
    /// Whether the entry is an asset or a directory with nothing in it.
    pub open spec fn is_single(self) -> bool {
        match self {
            TreeEntryView::Directory(dir) => dir == DirectoryView::leaf(dir.path),
            TreeEntryView::Asset(_) => true,
        }
    }
}

impl DirectoryView {
    /// The assets of the directory that `find` gives for `path`.
    pub open spec fn assets_at(self, path: Seq<char>) -> Option<Seq<AssetView>> {
        match self.find(path) {
            Some(dir) => Some(dir.assets),
            None => None,
        }
    }

    /// Whether the directory that `find` gives for the parent of `path`
    /// holds an asset with the path `path`.
    pub open spec fn has_asset(self, path: Seq<char>) -> bool {
        match parent_of(path) {
            Some(parent) => match self.assets_at(parent) {
                Some(assets) => holds_asset(assets, path),
                None => false,
            },
            None => false,
        }
    }

    /// The search that `find` stands for, told along the tree: this
    /// directory first, then its children in order.
    pub open spec fn search(self, path: Seq<char>) -> Option<DirectoryView>
        decreases self,
    {
        if self.path == path {
            Some(self)
        } else {
            Self::forest_search(self.children, path)
        }
    }

    /// The same for several trees.
    pub open spec fn forest_search(dirs: Seq<DirectoryView>, path: Seq<char>) -> Option<
        DirectoryView,
    >
        decreases dirs,
    {
        if dirs.len() == 0 {
            None
        } else {
            match Self::forest_search(dirs.drop_last(), path) {
                Some(dir) => Some(dir),
                None => dirs.last().search(path),
            }
        }
    }

    /// Searching along the tree gives what `find` gives.
    pub proof fn lemma_search_is_find(self, path: Seq<char>)
        ensures
            self.search(path) == self.find(path),
        decreases self, 1nat,
    {
        let head = seq![self];
        let rest = Self::forest_nodes(self.children);
        assert(head.drop_last() =~= Seq::<DirectoryView>::empty());
        assert(position_of_path(head.drop_last(), path) == -1);
        lemma_position_of_concat(head, rest, path);
        lemma_position_of_path(rest, path);
        Self::lemma_forest_search(self.children, path);
    }

    /// The same for several trees.
    pub proof fn lemma_forest_search(dirs: Seq<DirectoryView>, path: Seq<char>)
        ensures
            Self::forest_search(dirs, path) == if position_of_path(Self::forest_nodes(dirs), path)
                >= 0 {
                Some(Self::forest_nodes(dirs)[position_of_path(Self::forest_nodes(dirs), path)])
            } else {
                None
            },
        decreases dirs, 0nat,
    {
        if dirs.len() > 0 {
            let front = Self::forest_nodes(dirs.drop_last());
            let back = dirs.last().nodes();
            Self::lemma_forest_search(dirs.drop_last(), path);
            dirs.last().lemma_search_is_find(path);
            lemma_position_of_concat(front, back, path);
            lemma_position_of_path(front, path);
            lemma_position_of_path(back, path);
        }
    }

    /// What a search finds has the path that was searched for.
    pub proof fn lemma_search_path(self, path: Seq<char>)
        ensures
            self.search(path) is Some ==> self.search(path)->0.path == path,
    {
        self.lemma_search_is_find(path);
        self.lemma_find(path);
    }

    /// The same for several trees.
    pub proof fn lemma_forest_search_path(dirs: Seq<DirectoryView>, path: Seq<char>)
        ensures
            Self::forest_search(dirs, path) is Some ==> Self::forest_search(dirs, path)->0.path
                == path,
    {
        Self::lemma_forest_search(dirs, path);
        lemma_position_of_path(Self::forest_nodes(dirs), path);
    }

    /// An entry goes into the directory that `find` gives for `parent`: after
    /// the insertion, `find` gives that directory with the entry added at the
    /// end of what it held.
    pub proof fn lemma_placed_in_found(self, parent: Seq<char>, entry: TreeEntryView)
        requires
            self.placed(parent, entry) is Some,
        ensures
            self.find(parent) is Some,
            self.placed(parent, entry)->0.find(parent) == Some(
                self.find(parent)->0.adopt(entry),
            ),
    {
        self.lemma_placed_search_parent(parent, entry);
        self.lemma_search_is_find(parent);
        self.placed(parent, entry)->0.lemma_search_is_find(parent);
    }

    /// The same, told along the tree.
    pub proof fn lemma_placed_search_parent(self, parent: Seq<char>, entry: TreeEntryView)
        requires
            self.placed(parent, entry) is Some,
        ensures
            self.search(parent) is Some,
            self.placed(parent, entry)->0.search(parent) == Some(
                self.search(parent)->0.adopt(entry),
            ),
        decreases self, 1nat,
    {
        if self.path != parent {
            Self::lemma_forest_placed_search_parent(self.children, parent, entry);
        }
    }

    /// The same for several trees.
    pub proof fn lemma_forest_placed_search_parent(
        dirs: Seq<DirectoryView>,
        parent: Seq<char>,
        entry: TreeEntryView,
    )
        requires
            Self::forest_placed(dirs, parent, entry) is Some,
        ensures
            Self::forest_search(dirs, parent) is Some,
            Self::forest_search(Self::forest_placed(dirs, parent, entry)->0, parent) == Some(
                Self::forest_search(dirs, parent)->0.adopt(entry),
            ),
        decreases dirs, 0nat,
    {
        let grown = Self::forest_placed(dirs, parent, entry)->0;
        let front = dirs.drop_last();
        match Self::forest_placed(front, parent, entry) {
            Some(grown_front) => {
                Self::lemma_forest_placed_search_parent(front, parent, entry);
                assert(grown.drop_last() =~= grown_front);
            },
            None => {
                let tree = dirs.last().placed(parent, entry)->0;
                dirs.last().lemma_placed_search_parent(parent, entry);
                assert(grown.drop_last() =~= front);
                assert(grown.last() == tree);
                Self::lemma_forest_placed_iff_has_path(front, parent, entry);
                Self::lemma_forest_search(front, parent);
            },
        }
    }

    /// What the insertion of an asset, or of an empty directory with a path
    /// new to the tree, does to a search: a directory that was found is
    /// found again, with the same assets, and with the new asset at their end
    /// if it is the one that took the asset; the new directory is found; and
    /// nothing else is.
    pub proof fn lemma_placed_search(self, parent: Seq<char>, entry: TreeEntryView, path: Seq<char>)
        requires
            self.placed(parent, entry) is Some,
            entry.is_single(),
            entry matches TreeEntryView::Directory(dir) ==> self.search(dir.path) is None,
        ensures
            match self.search(path) {
                Some(dir) => {
                    &&& self.placed(parent, entry)->0.search(path) is Some
                    &&& self.placed(parent, entry)->0.search(path)->0.path == path
                    &&& self.placed(parent, entry)->0.search(path)->0.assets == match entry {
                        TreeEntryView::Asset(asset) => if path == parent {
                            dir.assets.push(asset)
                        } else {
                            dir.assets
                        },
                        TreeEntryView::Directory(_) => dir.assets,
                    }
                },
                None => match entry {
                    TreeEntryView::Directory(dir) => self.placed(parent, entry)->0.search(path)
                        == if path == dir.path {
                        Some(dir)
                    } else {
                        None
                    },
                    TreeEntryView::Asset(_) => self.placed(parent, entry)->0.search(path) is None,
                },
            },
        decreases self, 1nat,
    {
        let grown = self.placed(parent, entry)->0;
        Self::lemma_forest_search_path(self.children, path);
        if self.path == parent {
            match entry {
                TreeEntryView::Directory(dir) => {
                    // The new directory comes after the children that were
                    // there, and nothing lies below it: a search below this
                    // directory goes through the old children first and then
                    // looks at the new one.
                    let children = self.children.push(dir);
                    assert(children.drop_last() =~= self.children);
                    assert(children.last() == dir);
                    assert(dir.children =~= Seq::<DirectoryView>::empty());
                    assert(Self::forest_search(dir.children, path) is None);
                    assert(Self::forest_search(children, path) == match Self::forest_search(
                        self.children,
                        path,
                    ) {
                        Some(found) => Some(found),
                        None => dir.search(path),
                    });
                },
                TreeEntryView::Asset(_) => {},
            }
        } else {
            Self::lemma_forest_placed_search(self.children, parent, entry, path);
        }
    }

    /// The same for several trees.
    pub proof fn lemma_forest_placed_search(
        dirs: Seq<DirectoryView>,
        parent: Seq<char>,
        entry: TreeEntryView,
        path: Seq<char>,
    )
        requires
            Self::forest_placed(dirs, parent, entry) is Some,
            entry.is_single(),
            entry matches TreeEntryView::Directory(dir) ==> Self::forest_search(dirs, dir.path)
                is None,
        ensures
            match Self::forest_search(dirs, path) {
                Some(dir) => {
                    &&& Self::forest_search(
                        Self::forest_placed(dirs, parent, entry)->0,
                        path,
                    ) is Some
                    &&& Self::forest_search(
                        Self::forest_placed(dirs, parent, entry)->0,
                        path,
                    )->0.path == path
                    &&& Self::forest_search(
                        Self::forest_placed(dirs, parent, entry)->0,
                        path,
                    )->0.assets == match entry {
                        TreeEntryView::Asset(asset) => if path == parent {
                            dir.assets.push(asset)
                        } else {
                            dir.assets
                        },
                        TreeEntryView::Directory(_) => dir.assets,
                    }
                },
                None => match entry {
                    TreeEntryView::Directory(dir) => Self::forest_search(
                        Self::forest_placed(dirs, parent, entry)->0,
                        path,
                    ) == if path == dir.path {
                        Some(dir)
                    } else {
                        None
                    },
                    TreeEntryView::Asset(_) => Self::forest_search(
                        Self::forest_placed(dirs, parent, entry)->0,
                        path,
                    ) is None,
                },
            },
        decreases dirs, 0nat,
    {
        let grown = Self::forest_placed(dirs, parent, entry)->0;
        let front = dirs.drop_last();
        let last = dirs.last();
        Self::lemma_forest_search_path(front, path);
        last.lemma_search_path(path);
        match Self::forest_placed(front, parent, entry) {
            Some(grown_front) => {
                Self::lemma_forest_placed_search(front, parent, entry, path);
                assert(grown.drop_last() =~= grown_front);
                assert(grown.last() == last);
                // The directory that took the entry is in `front`, so a
                // search for `parent` ends there and never reaches `last`.
                Self::lemma_forest_placed_iff_has_path(front, parent, entry);
                Self::lemma_forest_search(front, parent);
                match entry {
                    TreeEntryView::Directory(dir) => {
                        // The new path is in neither `front` nor `last`.
                        assert(last.search(dir.path) is None);
                    },
                    TreeEntryView::Asset(_) => {},
                }
            },
            None => {
                let tree = last.placed(parent, entry)->0;
                assert(grown.drop_last() =~= front);
                assert(grown.last() == tree);
                last.lemma_placed_search(parent, entry, path);
                // No directory of `front` has the path `parent`.
                Self::lemma_forest_placed_iff_has_path(front, parent, entry);
                Self::lemma_forest_search(front, parent);
            },
        }
    }

    /// What an insertion does to the assets that are found by their paths:
    /// an asset that was held is still held, a new asset is held, and an
    /// empty directory with a path new to the tree brings none.
    pub proof fn lemma_with_entry_assets(self, entry: TreeEntryView, path: Seq<char>)
        requires
            self.with_entry(entry) is Some,
            entry.is_single(),
            entry matches TreeEntryView::Directory(dir) ==> !self.has_path(dir.path),
        ensures
            self.with_entry(entry)->0.has_asset(path) <==> self.has_asset(path) || (entry
                matches TreeEntryView::Asset(asset) && asset.path() == path),
    {
        let grown = self.with_entry(entry)->0;
        let parent = parent_of(entry.path())->0;
        match entry {
            TreeEntryView::Directory(dir) => {
                self.lemma_search_is_find(dir.path);
            },
            TreeEntryView::Asset(_) => {},
        }
        match parent_of(path) {
            Some(holder) => {
                self.lemma_search_is_find(holder);
                grown.lemma_search_is_find(holder);
                self.lemma_placed_search(parent, entry, holder);
                match self.find(holder) {
                    Some(dir) => {
                        let before = dir.assets;
                        let after = grown.find(holder)->0.assets;
                        match entry {
                            TreeEntryView::Asset(asset) => {
                                if holder == parent {
                                    // The directory has the assets it had, and
                                    // the new one after them.
                                    if holds_asset(before, path) {
                                        let k = choose|k: int|
                                            0 <= k < before.len() && (#[trigger] before[k]).path()
                                                == path;
                                        assert(after[k].path() == path);
                                    }
                                    if asset.path() == path {
                                        assert(after[before.len() as int] == asset);
                                    }
                                    if holds_asset(after, path) {
                                        let k = choose|k: int|
                                            0 <= k < after.len() && (#[trigger] after[k]).path()
                                                == path;
                                        if k < before.len() {
                                            assert(after[k] == before[k]);
                                        }
                                    }
                                }
                            },
                            TreeEntryView::Directory(_) => {},
                        }
                    },
                    None => {
                        match entry {
                            TreeEntryView::Directory(dir) => {
                                // The new directory holds no asset.
                                assert(dir.assets =~= Seq::<AssetView>::empty());
                            },
                            TreeEntryView::Asset(_) => {
                                // The asset went into a directory that was
                                // found, so its parent is not `holder`.
                                self.lemma_placed_iff_has_path(parent, entry);
                                self.lemma_find(parent);
                            },
                        }
                    },
                }
            },
            None => {},
        }
    }
}

} // verus!
