//! The asset directory tree: directories as nodes, assets as leaves.

use vstd::prelude::*;
use crate::assets::{AssetType, AssetView};
use crate::path::{file_name, file_name_of, parent, parent_of};

verus! {

/// A directory of the asset hierarchy, with the directories and the assets
/// that lie directly in it.
#[derive(Debug)]
pub struct AssetDirectory {
    /// Name of the directory.
    pub name: String,
    /// Path of the directory; it identifies the node.
    pub path: String,
    /// The directories directly inside this one, in the order they came in.
    pub children_directories: Vec<AssetDirectory>,
    /// The assets directly inside this directory, in the order they came in.
    pub assets: Vec<AssetType>,
}

impl PartialEq for AssetDirectory {
    /// Two directories are the same directory when their paths are equal,
    /// whatever they hold.
    fn eq(&self, other: &Self) -> (same: bool) {
        other.path == self.path
    }
}

impl Eq for AssetDirectory {

}

impl vstd::std_specs::cmp::PartialEqSpecImpl for AssetDirectory {
    open spec fn obeys_eq_spec() -> bool {
        true
    }

    open spec fn eq_spec(&self, other: &Self) -> bool {
        self.path@ == other.path@
    }
}

/// The model of an `AssetDirectory`: a tree of names and paths.
pub struct DirectoryView {
    pub name: Seq<char>,
    pub path: Seq<char>,
    pub children: Seq<DirectoryView>,
    pub assets: Seq<AssetView>,
}

/// Something that can be put into a directory.
#[derive(Debug)]
pub enum TreeEntry {
    Directory(AssetDirectory),
    Asset(AssetType),
}

/// The model of a `TreeEntry`.
pub enum TreeEntryView {
    Directory(DirectoryView),
    Asset(AssetView),
}

impl TreeEntryView {
    /// The entry that stands for the file or directory at `path`: an empty
    /// directory, or the asset that the file's extension stands for.
    pub open spec fn of_path(
        path: Seq<char>,
        is_dir: bool,
        bevy_handle: u64,
        egui_texture_id: u64,
    ) -> Option<TreeEntryView> {
        if is_dir {
            Some(TreeEntryView::Directory(DirectoryView::leaf(path)))
        } else {
            match AssetView::created(path, bevy_handle, egui_texture_id) {
                Some(asset) => Some(TreeEntryView::Asset(asset)),
                None => None,
            }
        }
    }

    /// The path of the entry.
    pub open spec fn path(self) -> Seq<char> {
        match self {
            TreeEntryView::Directory(dir) => dir.path,
            TreeEntryView::Asset(asset) => asset.path(),
        }
    }
}

impl View for TreeEntry {
    type V = TreeEntryView;

    open spec fn view(&self) -> TreeEntryView {
        match self {
            TreeEntry::Directory(dir) => TreeEntryView::Directory(dir@),
            TreeEntry::Asset(asset) => TreeEntryView::Asset(asset@),
        }
    }
}

/// The models of a sequence of directories.
pub open spec fn views_of(dirs: Seq<AssetDirectory>) -> Seq<DirectoryView>
    decreases dirs,
{
    if dirs.len() == 0 {
        Seq::empty()
    } else {
        views_of(dirs.drop_last()).push(dirs.last().model())
    }
}

/// `views_of` takes the model of each directory, place by place.
pub proof fn lemma_views_of(dirs: Seq<AssetDirectory>)
    ensures
        views_of(dirs).len() == dirs.len(),
        forall|i: int| 0 <= i < dirs.len() ==> #[trigger] views_of(dirs)[i] == dirs[i]@,
    decreases dirs.len(),
{
    if dirs.len() > 0 {
        lemma_views_of(dirs.drop_last());
    }
}

/// The models of a sequence of assets.
pub open spec fn asset_views_of(assets: Seq<AssetType>) -> Seq<AssetView> {
    Seq::new(assets.len(), |i: int| assets[i]@)
}

impl AssetDirectory {
    /// The model of this directory and of all that lies below it.
    pub open spec fn model(&self) -> DirectoryView
        decreases self,
    {
        DirectoryView {
            name: self.name@,
            path: self.path@,
            children: views_of(self.children_directories@),
            assets: asset_views_of(self.assets@),
        }
    }
}

impl View for AssetDirectory {
    type V = DirectoryView;

    open spec fn view(&self) -> DirectoryView {
        self.model()
    }
}

impl DirectoryView {
    /// A directory with nothing in it.
    pub open spec fn leaf(path: Seq<char>) -> DirectoryView {
        DirectoryView {
            name: file_name_of(path),
            path,
            children: Seq::empty(),
            assets: Seq::empty(),
        }
    }

    /// Every directory of the tree, parents before their children and
    /// children in the order they were inserted.
    pub open spec fn nodes(self) -> Seq<DirectoryView>
        decreases self,
    {
        seq![self] + Self::forest_nodes(self.children)
    }

    /// The directories of several trees, tree after tree.
    pub open spec fn forest_nodes(dirs: Seq<DirectoryView>) -> Seq<DirectoryView>
        decreases dirs,
    {
        if dirs.len() == 0 {
            Seq::empty()
        } else {
            Self::forest_nodes(dirs.drop_last()) + dirs.last().nodes()
        }
    }

    /// Whether two trees have the same shape and, place by place, the same
    /// paths.
    pub open spec fn paths_match(self, other: DirectoryView) -> bool
        decreases self,
    {
        self.path == other.path && Self::forest_paths_match(self.children, other.children)
    }

    /// The same for two sequences of trees.
    pub open spec fn forest_paths_match(a: Seq<DirectoryView>, b: Seq<DirectoryView>) -> bool
        decreases a,
    {
        a.len() == b.len() && (a.len() == 0 || (Self::forest_paths_match(
            a.drop_last(),
            b.drop_last(),
        ) && a.last().paths_match(b.last())))
    }

    /// Two sequences of trees match when they are equally long and their
    /// trees match place by place.
    pub proof fn lemma_forest_paths_match(a: Seq<DirectoryView>, b: Seq<DirectoryView>)
        ensures
            Self::forest_paths_match(a, b) <==> a.len() == b.len() && forall|i: int|
                0 <= i < a.len() ==> (#[trigger] a[i]).paths_match(b[i]),
        decreases a.len(),
    {
        if a.len() == b.len() && a.len() > 0 {
            Self::lemma_forest_paths_match(a.drop_last(), b.drop_last());
            if Self::forest_paths_match(a, b) {
                assert forall|i: int| 0 <= i < a.len() implies (#[trigger] a[i]).paths_match(
                    b[i],
                ) by {
                    if i < a.len() - 1 {
                        assert(a.drop_last()[i] == a[i]);
                        assert(b.drop_last()[i] == b[i]);
                    }
                }
            }
            if forall|i: int| 0 <= i < a.len() ==> (#[trigger] a[i]).paths_match(b[i]) {
                let front = a.drop_last();
                assert forall|i: int| 0 <= i < front.len() implies (#[trigger] front[i]).paths_match(
                    b.drop_last()[i],
                ) by {
                    assert(a.drop_last()[i] == a[i]);
                    assert(b.drop_last()[i] == b[i]);
                }
                assert(a.last() == a[a.len() - 1]);
            }
        }
    }

    /// A tree matches itself.
    pub proof fn lemma_paths_match_itself(self)
        ensures
            self.paths_match(self),
        decreases self,
    {
        Self::lemma_forest_paths_match(self.children, self.children);
        let children = self.children;
        assert forall|i: int| 0 <= i < children.len() implies (#[trigger] children[i]).paths_match(
            children[i],
        ) by {
            self.children[i].lemma_paths_match_itself();
        }
    }

    /// This directory with `entry` added after what it already holds.
    pub open spec fn adopt(self, entry: TreeEntryView) -> DirectoryView {
        match entry {
            TreeEntryView::Directory(dir) => DirectoryView {
                children: self.children.push(dir),
                ..self
            },
            TreeEntryView::Asset(asset) => DirectoryView { assets: self.assets.push(asset), ..self },
        }
    }

    /// The tree after `entry` was put into the first directory, in the order
    /// of `nodes`, whose path is `parent`; `None` when no directory has that
    /// path.
    pub open spec fn placed(self, parent: Seq<char>, entry: TreeEntryView) -> Option<DirectoryView>
        decreases self,
    {
        if self.path == parent {
            Some(self.adopt(entry))
        } else {
            match Self::forest_placed(self.children, parent, entry) {
                Some(children) => Some(DirectoryView { children, ..self }),
                None => None,
            }
        }
    }

    /// The same for several trees: the entry goes into the first tree that
    /// has a directory with the path `parent`.
    pub open spec fn forest_placed(
        dirs: Seq<DirectoryView>,
        parent: Seq<char>,
        entry: TreeEntryView,
    ) -> Option<Seq<DirectoryView>>
        decreases dirs,
    {
        if dirs.len() == 0 {
            None
        } else {
            match Self::forest_placed(dirs.drop_last(), parent, entry) {
                Some(front) => Some(front.push(dirs.last())),
                None => match dirs.last().placed(parent, entry) {
                    Some(tree) => Some(dirs.drop_last().push(tree)),
                    None => None,
                },
            }
        }
    }

    /// The tree after `entry` was put into the directory that its path names
    /// as its parent; `None` when the path has no parent or the tree has no
    /// such directory.
    pub open spec fn with_entry(self, entry: TreeEntryView) -> Option<DirectoryView> {
        match parent_of(entry.path()) {
            Some(parent) => self.placed(parent, entry),
            None => None,
        }
    }

    /// The tree after the directory `child` was inserted.
    pub open spec fn with_directory(self, child: DirectoryView) -> Option<DirectoryView> {
        self.with_entry(TreeEntryView::Directory(child))
    }

    /// The tree after `asset` was inserted.
    pub open spec fn with_asset(self, asset: AssetView) -> Option<DirectoryView> {
        self.with_entry(TreeEntryView::Asset(asset))
    }

    /// Where the entry goes when the first `i` trees refuse it and tree `i`
    /// takes it.
    pub proof fn lemma_forest_placed_at(
        dirs: Seq<DirectoryView>,
        parent: Seq<char>,
        entry: TreeEntryView,
        i: int,
    )
        requires
            0 <= i < dirs.len(),
            Self::forest_placed(dirs.take(i), parent, entry) is None,
            dirs[i].placed(parent, entry) is Some,
        ensures
            Self::forest_placed(dirs, parent, entry) == Some(
                dirs.update(i, dirs[i].placed(parent, entry)->0),
            ),
        decreases dirs.len(),
    {
        let tree = dirs[i].placed(parent, entry)->0;
        let front = dirs.drop_last();
        if i == dirs.len() - 1 {
            assert(dirs.take(i) =~= front);
            assert(front.push(tree) =~= dirs.update(i, tree));
        } else {
            assert(front.take(i) =~= dirs.take(i));
            Self::lemma_forest_placed_at(front, parent, entry, i);
            assert(front.update(i, tree).push(dirs.last()) =~= dirs.update(i, tree));
        }
    }

    /// An entry finds a place exactly when some directory has the path
    /// `parent`.
    pub proof fn lemma_placed_iff_has_path(self, parent: Seq<char>, entry: TreeEntryView)
        ensures
            self.placed(parent, entry) is Some <==> self.has_path(parent),
        decreases self, 1nat,
    {
        let head = seq![self];
        assert(head.drop_last() =~= Seq::<DirectoryView>::empty());
        assert(position_of_path(head.drop_last(), parent) == -1);
        lemma_position_of_concat(head, Self::forest_nodes(self.children), parent);
        Self::lemma_forest_placed_iff_has_path(self.children, parent, entry);
    }

    /// The same for several trees.
    pub proof fn lemma_forest_placed_iff_has_path(
        dirs: Seq<DirectoryView>,
        parent: Seq<char>,
        entry: TreeEntryView,
    )
        ensures
            Self::forest_placed(dirs, parent, entry) is Some <==> position_of_path(
                Self::forest_nodes(dirs),
                parent,
            ) >= 0,
        decreases dirs, 0nat,
    {
        if dirs.len() > 0 {
            Self::lemma_forest_placed_iff_has_path(dirs.drop_last(), parent, entry);
            dirs.last().lemma_placed_iff_has_path(parent, entry);
            lemma_position_of_concat(
                Self::forest_nodes(dirs.drop_last()),
                dirs.last().nodes(),
                parent,
            );
        }
    }

    /// The tree after the file or directory at `path` was offered to it:
    /// a directory comes in as an empty directory, a file as the asset that
    /// its extension stands for. `None` when the file is of no supported kind
    /// or when no directory of the tree has the path's parent as its path.
    pub open spec fn offered(
        self,
        path: Seq<char>,
        is_dir: bool,
        bevy_handle: u64,
        egui_texture_id: u64,
    ) -> Option<DirectoryView> {
        match TreeEntryView::of_path(path, is_dir, bevy_handle, egui_texture_id) {
            Some(entry) => self.with_entry(entry),
            None => None,
        }
    }

    /// Whether some directory of the tree has the given path.
    pub open spec fn has_path(self, path: Seq<char>) -> bool {
        position_of_path(self.nodes(), path) >= 0
    }

    /// The first directory of the tree with the given path, in the order of
    /// `nodes`.
    pub open spec fn find(self, path: Seq<char>) -> Option<DirectoryView> {
        let at = position_of_path(self.nodes(), path);
        if at >= 0 {
            Some(self.nodes()[at])
        } else {
            None
        }
    }
}

/// Where the first directory with the given path stands in `nodes`, or `-1`
/// when there is none.
pub open spec fn position_of_path(nodes: Seq<DirectoryView>, path: Seq<char>) -> int
    decreases nodes.len(),
{
    if nodes.len() == 0 {
        -1
    } else {
        let before = position_of_path(nodes.drop_last(), path);
        if before >= 0 {
            before
        } else if nodes.last().path == path {
            nodes.len() - 1
        } else {
            -1
        }
    }
}

/// Whether `i` is the place of the first directory of `nodes` with the given
/// path.
pub open spec fn is_first_with_path(nodes: Seq<DirectoryView>, path: Seq<char>, i: int) -> bool {
    &&& 0 <= i < nodes.len()
    &&& nodes[i].path == path
    &&& forall|j: int| 0 <= j < i ==> nodes[j].path != path
}

/// `position_of_path` gives the first match, and `-1` exactly when no
/// directory has the path.
pub proof fn lemma_position_of_path(nodes: Seq<DirectoryView>, path: Seq<char>)
    ensures
        -1 <= position_of_path(nodes, path) < nodes.len(),
        position_of_path(nodes, path) >= 0 ==> is_first_with_path(
            nodes,
            path,
            position_of_path(nodes, path),
        ),
        position_of_path(nodes, path) == -1 ==> forall|j: int|
            0 <= j < nodes.len() ==> nodes[j].path != path,
    decreases nodes.len(),
{
    if nodes.len() > 0 {
        let front = nodes.drop_last();
        lemma_position_of_path(front, path);
        assert forall|j: int| 0 <= j < front.len() implies front[j] == nodes[j] by {}
        let before = position_of_path(front, path);
        if before >= 0 {
            assert forall|j: int| 0 <= j < before implies nodes[j].path != path by {
                assert(front[j].path != path);
            }
        } else {
            assert forall|j: int| 0 <= j < front.len() implies nodes[j].path != path by {
                assert(front[j].path != path);
            }
        }
    }
}

/// The first match in two sequences laid end to end is the first match in
/// the first of them or, failing that, the first match in the second.
pub proof fn lemma_position_of_concat(
    a: Seq<DirectoryView>,
    b: Seq<DirectoryView>,
    path: Seq<char>,
)
    ensures
        position_of_path(a + b, path) == if position_of_path(a, path) >= 0 {
            position_of_path(a, path)
        } else if position_of_path(b, path) >= 0 {
            a.len() + position_of_path(b, path)
        } else {
            -1
        },
    decreases b.len(),
{
    lemma_position_of_path(a, path);
    lemma_position_of_path(b, path);
    if b.len() == 0 {
        assert(a + b =~= a);
    } else {
        lemma_position_of_concat(a, b.drop_last(), path);
        lemma_position_of_path(b.drop_last(), path);
        assert((a + b).drop_last() =~= a + b.drop_last());
        assert((a + b).last() == b.last());
    }
}

/// The first match is unique: a place that satisfies `is_first_with_path` is
/// the one `position_of_path` computes.
pub proof fn lemma_first_with_path_unique(nodes: Seq<DirectoryView>, path: Seq<char>, i: int)
    requires
        is_first_with_path(nodes, path, i),
    ensures
        position_of_path(nodes, path) == i,
{
    lemma_position_of_path(nodes, path);
    let p = position_of_path(nodes, path);
    if p == -1 {
        assert(nodes[i].path != path);
    }
}

impl AssetDirectory {
    /// The model of a directory holds the models of what the directory holds.
    pub proof fn lemma_view(&self)
        ensures
            self@.name == self.name@,
            self@.path == self.path@,
            self@.children == views_of(self.children_directories@),
            self@.assets == asset_views_of(self.assets@),
            self@.children.len() == self.children_directories@.len(),
            forall|i: int|
                0 <= i < self.children_directories@.len() ==> #[trigger] self@.children[i]
                    == self.children_directories@[i]@,
            self@.assets.len() == self.assets@.len(),
            forall|i: int|
                0 <= i < self.assets@.len() ==> #[trigger] self@.assets[i] == self.assets@[i]@,
    {
        lemma_views_of(self.children_directories@);
    }

    /// Every directory of the tree as it is held in memory, in the order of
    /// `DirectoryView::nodes`.
    pub open spec fn directories(&self) -> Seq<AssetDirectory>
        decreases self,
    {
        seq![*self] + Self::forest_directories(self.children_directories@)
    }

    /// The directories of several trees, tree after tree.
    pub open spec fn forest_directories(dirs: Seq<AssetDirectory>) -> Seq<AssetDirectory>
        decreases dirs,
    {
        if dirs.len() == 0 {
            Seq::empty()
        } else {
            Self::forest_directories(dirs.drop_last()) + dirs.last().directories()
        }
    }

    /// The directories held in memory are, one for one, those of the model.
    pub proof fn lemma_directories_view(&self)
        ensures
            views_of(self.directories()) == self@.nodes(),
        decreases self, 1nat,
    {
        Self::lemma_forest_directories_view(self.children_directories@);
        self.lemma_view();
        lemma_views_of(self.directories());
        lemma_views_of(Self::forest_directories(self.children_directories@));
        assert(views_of(self.directories()) =~= self@.nodes());
    }

    /// The same for a sequence of trees.
    pub proof fn lemma_forest_directories_view(dirs: Seq<AssetDirectory>)
        ensures
            views_of(Self::forest_directories(dirs)) == DirectoryView::forest_nodes(
                views_of(dirs),
            ),
        decreases dirs, 0nat,
    {
        lemma_views_of(dirs);
        lemma_views_of(Self::forest_directories(dirs));
        if dirs.len() == 0 {
            assert(views_of(Self::forest_directories(dirs)) =~= Seq::empty());
        } else {
            Self::lemma_forest_directories_view(dirs.drop_last());
            dirs.last().lemma_directories_view();
            lemma_views_of(dirs.drop_last());
            lemma_views_of(Self::forest_directories(dirs.drop_last()));
            lemma_views_of(dirs.last().directories());
            assert(views_of(dirs).drop_last() =~= views_of(dirs.drop_last()));
            assert(views_of(dirs).last() == dirs.last()@);
            assert(views_of(Self::forest_directories(dirs)) =~= DirectoryView::forest_nodes(
                views_of(dirs),
            ));
        }
    }

    /// The directories of the first `i` trees come first among the directories
    /// of all of them, and those of tree `i` follow.
    pub proof fn lemma_forest_directories_prefix(dirs: Seq<AssetDirectory>, i: int)
        requires
            0 <= i <= dirs.len(),
        ensures
            Self::forest_directories(dirs.take(i)).len() <= Self::forest_directories(dirs).len(),
            Self::forest_directories(dirs.take(i)) == Self::forest_directories(dirs).take(
                Self::forest_directories(dirs.take(i)).len() as int,
            ),
            i < dirs.len() ==> Self::forest_directories(dirs.take(i + 1))
                == Self::forest_directories(dirs.take(i)) + dirs[i].directories(),
        decreases dirs.len() - i,
    {
        if i == dirs.len() {
            assert(dirs.take(i) =~= dirs);
            assert(Self::forest_directories(dirs).take(
                Self::forest_directories(dirs).len() as int,
            ) =~= Self::forest_directories(dirs));
        } else {
            Self::lemma_forest_directories_prefix(dirs, i + 1);
            assert(dirs.take(i + 1).drop_last() =~= dirs.take(i));
            assert(dirs.take(i + 1).last() == dirs[i]);
            let shorter = Self::forest_directories(dirs.take(i));
            let longer = Self::forest_directories(dirs.take(i + 1));
            assert(longer == shorter + dirs[i].directories());
            assert(shorter =~= Self::forest_directories(dirs).take(shorter.len() as int));
        }
    }

    /// Looks for a directory that satisfies `pred`: this one first, then its
    /// children in order, each with all that lies below it.
    pub fn find_by_predicate<F: Fn(&AssetDirectory) -> bool>(&self, pred: &F) -> (found: Option<
        &AssetDirectory,
    >)
        requires
            forall|i: int|
                0 <= i < self.directories().len() ==> pred.requires((&#[trigger] self.directories()[i],)),
        ensures
            match found {
                Some(dir) => exists|i: int|
                    {
                        &&& 0 <= i < self.directories().len()
                        &&& self.directories()[i] == *dir
                        &&& pred.ensures((dir,), true)
                        &&& forall|j: int|
                            0 <= j < i ==> pred.ensures((&#[trigger] self.directories()[j],), false)
                    },
                None => forall|j: int|
                    0 <= j < self.directories().len() ==> pred.ensures(
                        (&#[trigger] self.directories()[j],),
                        false,
                    ),
            },
        decreases self,
    {
        let ghost all = self.directories();
        let ghost children = self.children_directories@;
        assert(all[0] == *self);
        if pred(self) {
            return Some(self);
        }
        let mut i: usize = 0;
        while i < self.children_directories.len()
            invariant
                0 <= i <= self.children_directories.len(),
                all == self.directories(),
                children == self.children_directories@,
                pred.ensures((self,), false),
                forall|k: int| 0 <= k < all.len() ==> pred.requires((&#[trigger] all[k],)),
                forall|j: int|
                    0 <= j < Self::forest_directories(children.take(i as int)).len()
                        ==> pred.ensures(
                        (&#[trigger] Self::forest_directories(children.take(i as int))[j],),
                        false,
                    ),
            decreases self.children_directories.len() - i,
        {
            let child = &self.children_directories[i];
            proof {
                Self::lemma_forest_directories_prefix(children, i as int);
                Self::lemma_forest_directories_prefix(children, i as int + 1);
                let before = Self::forest_directories(children.take(i as int));
                let with_child = Self::forest_directories(children.take(i as int + 1));
                assert forall|k: int| 0 <= k < child.directories().len() implies pred.requires(
                    (&#[trigger] child.directories()[k],),
                ) by {
                    assert(with_child[before.len() + k] == child.directories()[k]);
                    assert(all[1 + before.len() + k] == child.directories()[k]);
                }
            }
            match child.find_by_predicate(pred) {
                Some(result) => {
                    proof {
                        let before = Self::forest_directories(children.take(i as int));
                        let with_child = Self::forest_directories(children.take(i as int + 1));
                        let k = choose|k: int|
                            {
                                &&& 0 <= k < child.directories().len()
                                &&& child.directories()[k] == *result
                                &&& pred.ensures((result,), true)
                                &&& forall|j: int|
                                    0 <= j < k ==> pred.ensures(
                                        (&#[trigger] child.directories()[j],),
                                        false,
                                    )
                            };
                        let at = 1 + before.len() + k;
                        assert(with_child[before.len() + k] == child.directories()[k]);
                        assert(all[at] == *result);
                        assert forall|j: int| 0 <= j < at implies pred.ensures(
                            (&#[trigger] all[j],),
                            false,
                        ) by {
                            if j == 0 {
                            } else if j - 1 < before.len() {
                                assert(all[j] == before[j - 1]);
                            } else {
                                assert(with_child[j - 1] == child.directories()[j - 1 - before.len()]);
                                assert(all[j] == child.directories()[j - 1 - before.len()]);
                            }
                        }
                    }
                    return Some(result);
                },
                None => {
                    proof {
                        let before = Self::forest_directories(children.take(i as int));
                        let with_child = Self::forest_directories(children.take(i as int + 1));
                        assert forall|j: int| 0 <= j < with_child.len() implies pred.ensures(
                            (&#[trigger] with_child[j],),
                            false,
                        ) by {
                            if j < before.len() {
                                assert(with_child[j] == before[j]);
                            } else {
                                assert(with_child[j] == child.directories()[j - before.len()]);
                            }
                        }
                    }
                },
            }
            i = i + 1;
        }
        proof {
            assert(children.take(i as int) =~= children);
            assert forall|j: int| 0 <= j < all.len() implies pred.ensures(
                (&#[trigger] all[j],),
                false,
            ) by {
                if j > 0 {
                    assert(all[j] == Self::forest_directories(children)[j - 1]);
                }
            }
        }
        None
    }

    /// Whether this tree and `other` are the same tree of directories: the
    /// same shape and, place by place, the same paths.
    pub fn paths_match(&self, other: &AssetDirectory) -> (same: bool)
        ensures
            same == self@.paths_match(other@),
        decreases self,
    {
        proof {
            self.lemma_view();
            other.lemma_view();
            DirectoryView::lemma_forest_paths_match(self@.children, other@.children);
        }
        if !(self.path == other.path) {
            return false;
        }
        if self.children_directories.len() != other.children_directories.len() {
            return false;
        }
        let mut i: usize = 0;
        while i < self.children_directories.len()
            invariant
                0 <= i <= self.children_directories.len(),
                self.children_directories.len() == other.children_directories.len(),
                self@.children.len() == self.children_directories@.len(),
                other@.children.len() == other.children_directories@.len(),
                forall|k: int|
                    0 <= k < self.children_directories@.len() ==> #[trigger] self@.children[k]
                        == self.children_directories@[k]@,
                forall|k: int|
                    0 <= k < other.children_directories@.len() ==> #[trigger] other@.children[k]
                        == other.children_directories@[k]@,
                forall|j: int|
                    0 <= j < i ==> (#[trigger] self@.children[j]).paths_match(other@.children[j]),
                self@.path == other@.path,
                DirectoryView::forest_paths_match(self@.children, other@.children)
                    <==> self@.children.len() == other@.children.len() && forall|j: int|
                    0 <= j < self@.children.len() ==> (#[trigger] self@.children[j]).paths_match(
                        other@.children[j],
                    ),
            decreases self.children_directories.len() - i,
        {
            if !self.children_directories[i].paths_match(&other.children_directories[i]) {
                assert(!self@.children[i as int].paths_match(other@.children[i as int]));
                return false;
            }
            i = i + 1;
        }
        true
    }

    /// Looks for a directory that satisfies `pred` among this directory and
    /// the directories directly in it, in that order, and lends it out for
    /// change. What the caller does to it is done to the tree.
    pub fn find_by_predicate_mut<F: Fn(&AssetDirectory) -> bool>(&mut self, pred: F) -> (found:
        Option<&mut AssetDirectory>)
        requires
            pred.requires((old(self),)),
            forall|i: int|
                0 <= i < old(self).children_directories@.len() ==> pred.requires(
                    (&#[trigger] old(self).children_directories@[i],),
                ),
        ensures
            match found {
                Some(dir) => {
                    &&& pred.ensures((dir,), true)
                    &&& {
                        ||| {
                            &&& *dir == *old(self)
                            &&& *final(self) == *final(dir)
                        }
                        ||| exists|i: int|
                            {
                                &&& 0 <= i < old(self).children_directories@.len()
                                &&& *dir == #[trigger] old(self).children_directories@[i]
                                &&& pred.ensures((old(self),), false)
                                &&& forall|j: int|
                                    0 <= j < i ==> pred.ensures(
                                        (&#[trigger] old(self).children_directories@[j],),
                                        false,
                                    )
                                &&& final(self).children_directories@
                                    == old(self).children_directories@.update(i, *final(dir))
                                &&& final(self).name == old(self).name
                                &&& final(self).path == old(self).path
                                &&& final(self).assets == old(self).assets
                            }
                    }
                },
                None => {
                    &&& *final(self) == *old(self)
                    &&& pred.ensures((old(self),), false)
                    &&& forall|j: int|
                        0 <= j < old(self).children_directories@.len() ==> pred.ensures(
                            (&#[trigger] old(self).children_directories@[j],),
                            false,
                        )
                },
            },
    {
        if pred(self) {
            return Some(self);
        }
        let mut i: usize = 0;
        while i < self.children_directories.len()
            invariant
                0 <= i <= self.children_directories.len(),
                *self == *old(self),
                pred.ensures((old(self),), false),
                forall|k: int|
                    0 <= k < self.children_directories@.len() ==> pred.requires(
                        (&#[trigger] self.children_directories@[k],),
                    ),
                forall|j: int|
                    0 <= j < i ==> pred.ensures(
                        (&#[trigger] self.children_directories@[j],),
                        false,
                    ),
            decreases self.children_directories.len() - i,
        {
            if pred(&self.children_directories[i]) {
                return Some(&mut self.children_directories[i]);
            }
            i = i + 1;
        }
        None
    }

    /// Looks for the directory with the given path: the first one in the
    /// order of `DirectoryView::nodes`, if the path occurs more than once.
    pub fn find_by_path(&self, path: &str) -> (found: Option<&AssetDirectory>)
        ensures
            match found {
                Some(dir) => self@.find(path@) == Some(dir@) && dir@.path == path@,
                None => self@.find(path@) is None && !self@.has_path(path@),
            },
    {
        let wanted = path.to_owned();
        let has_wanted_path = |dir: &AssetDirectory| -> (same: bool)
            ensures
                same == (dir.path@ == wanted@),
            { dir.path == wanted };
        let found = self.find_by_predicate(&has_wanted_path);
        proof {
            let all = self.directories();
            let nodes = self@.nodes();
            self.lemma_directories_view();
            lemma_views_of(all);
            assert(nodes.len() == all.len());
            assert forall|j: int| 0 <= j < all.len() implies #[trigger] nodes[j].path
                == all[j].path@ by {
                assert(views_of(all)[j] == all[j]@);
            }
            match found {
                Some(dir) => {
                    let i = choose|i: int|
                        {
                            &&& 0 <= i < all.len()
                            &&& all[i] == *dir
                            &&& has_wanted_path.ensures((dir,), true)
                            &&& forall|j: int|
                                0 <= j < i ==> has_wanted_path.ensures((&#[trigger] all[j],), false)
                        };
                    assert(views_of(all)[i] == all[i]@);
                    assert forall|j: int| 0 <= j < i implies nodes[j].path != path@ by {
                        assert(has_wanted_path.ensures((&all[j],), false));
                    }
                    lemma_first_with_path_unique(nodes, path@, i);
                },
                None => {
                    lemma_position_of_path(nodes, path@);
                    let at = position_of_path(nodes, path@);
                    if at >= 0 {
                        assert(has_wanted_path.ensures((&all[at],), false));
                    }
                },
            }
        }
        found
    }

    /// Puts `entry` into the first directory whose path is `parent`, looking
    /// at this directory first and then at its children in order. Hands the
    /// entry back when no directory has that path.
    pub fn place(&mut self, parent: &String, entry: TreeEntry) -> (r: Result<(), TreeEntry>)
        ensures
            match r {
                Ok(()) => old(self)@.placed(parent@, entry@) == Some(final(self)@),
                Err(back) => {
                    &&& back == entry
                    &&& final(self)@ == old(self)@
                    &&& old(self)@.placed(parent@, entry@) is None
                },
            },
            r is Ok <==> old(self)@.find(parent@) is Some,
            r is Ok ==> final(self)@.find(parent@) == Some(
                old(self)@.find(parent@)->0.adopt(entry@),
            ),
        decreases old(self)@,
    {
        let ghost before = self@;
        proof {
            before.lemma_placed_iff_has_path(parent@, entry@);
            before.lemma_find(parent@);
            if before.placed(parent@, entry@) is Some {
                before.lemma_placed_in_found(parent@, entry@);
            }
        }
        if self.path == *parent {
            match entry {
                TreeEntry::Directory(dir) => {
                    proof {
                        self.lemma_view();
                    }
                    self.children_directories.push(dir);
                    proof {
                        self.lemma_view();
                    }
                    assert(self@.children =~= before.children.push(dir@));
                    assert(self@.assets =~= before.assets);
                },
                TreeEntry::Asset(asset) => {
                    proof {
                        self.lemma_view();
                    }
                    self.assets.push(asset);
                    proof {
                        self.lemma_view();
                    }
                    assert(self@.assets =~= before.assets.push(asset@));
                    assert(self@.children =~= before.children);
                },
            }
            return Ok(());
        }
        let mut pending = entry;
        let mut i: usize = 0;
        while i < self.children_directories.len()
            invariant
                0 <= i <= self.children_directories.len(),
                self@ == before,
                before == old(self)@,
                before.path != parent@,
                pending == entry,
                DirectoryView::forest_placed(before.children.take(i as int), parent@, entry@)
                    is None,
            decreases self.children_directories.len() - i,
        {
            let ghost children_before = self.children_directories@;
            let ghost assets_before = self.assets@;
            proof {
                self.lemma_view();
            }
            assert(before.children[i as int] == children_before[i as int]@);
            match self.children_directories[i].place(parent, pending) {
                Ok(()) => {
                    proof {
                        self.lemma_view();
                        let tree = before.children[i as int].placed(parent@, entry@)->0;
                        assert(self.children_directories@ =~= children_before.update(
                            i as int,
                            self.children_directories@[i as int],
                        ));
                        assert(self@.children =~= before.children.update(i as int, tree));
                        assert(self@.assets =~= before.assets);
                        DirectoryView::lemma_forest_placed_at(
                            before.children,
                            parent@,
                            entry@,
                            i as int,
                        );
                        before.lemma_placed_iff_has_path(parent@, entry@);
                        before.lemma_find(parent@);
                        before.lemma_placed_in_found(parent@, entry@);
                    }
                    return Ok(());
                },
                Err(back) => {
                    proof {
                        self.lemma_view();
                        assert(self.children_directories@ =~= children_before.update(
                            i as int,
                            self.children_directories@[i as int],
                        ));
                        assert(self@.children =~= before.children);
                        assert(self@.assets =~= before.assets);
                        assert(before.children.take(i + 1).drop_last() =~= before.children.take(
                            i as int,
                        ));
                    }
                    pending = back;
                },
            }
            i = i + 1;
        }
        proof {
            self.lemma_view();
            assert(before.children.take(i as int) =~= before.children);
        }
        Err(pending)
    }

    /// Offers the file or directory at `path` to the tree. A directory is
    /// inserted as an empty directory, a file of a supported kind as an asset;
    /// the handles are kept in the descriptor of an image. Says whether the
    /// entry was inserted; the tree is unchanged when it was not.
    pub fn try_insert(
        &mut self,
        path: &str,
        is_dir: bool,
        bevy_handle: u64,
        egui_texture_id: u64,
    ) -> (inserted: bool)
        ensures
            match old(self)@.offered(path@, is_dir, bevy_handle, egui_texture_id) {
                Some(tree) => inserted && final(self)@ == tree,
                None => !inserted && final(self)@ == old(self)@,
            },
            old(self)@.well_formed() ==> final(self)@.well_formed(),
    {
        proof {
            DirectoryView::lemma_leaf(path@);
        }
        if is_dir {
            self.try_insert_directory(AssetDirectory::new(path.to_owned())).is_ok()
        } else {
            match AssetType::try_create(path, bevy_handle, egui_texture_id) {
                Some(asset) => self.try_insert_asset(asset).is_ok(),
                None => false,
            }
        }
    }

    /// Puts `entry` into the directory that its path names as its parent.
    /// Hands the entry back when the path has no parent or no directory of
    /// the tree has the parent's path.
    pub fn try_insert_entry(&mut self, entry: TreeEntry) -> (r: Result<(), TreeEntry>)
        ensures
            match r {
                Ok(()) => old(self)@.with_entry(entry@) == Some(final(self)@),
                Err(back) => {
                    &&& back == entry
                    &&& final(self)@ == old(self)@
                    &&& old(self)@.with_entry(entry@) is None
                },
            },
            r is Ok <==> parent_of(entry@.path()) is Some && old(self)@.has_path(
                parent_of(entry@.path())->0,
            ),
            r is Ok ==> final(self)@.find(parent_of(entry@.path())->0) == Some(
                old(self)@.find(parent_of(entry@.path())->0)->0.adopt(entry@),
            ),
            old(self)@.well_formed() && entry@.well_formed() ==> final(self)@.well_formed(),
    {
        let parent_path = match &entry {
            TreeEntry::Directory(dir) => parent(dir.path.as_str()),
            TreeEntry::Asset(AssetType::Image(image)) => parent(image.path.as_str()),
            TreeEntry::Asset(AssetType::Scene(scene)) => parent(scene.path.as_str()),
        };
        match parent_path {
            Some(parent_path) => {
                proof {
                    self@.lemma_placed_iff_has_path(parent_path@, entry@);
                    if self@.with_entry(entry@) is Some {
                        self@.lemma_with_entry(entry@);
                    }
                }
                self.place(&parent_path, entry)
            },
            None => Err(entry),
        }
    }

    /// Puts the directory into the tree, below the directory whose path is
    /// the parent of its own. Hands it back when there is no such directory.
    pub fn try_insert_directory(&mut self, potential_child: AssetDirectory) -> (r: Result<
        (),
        AssetDirectory,
    >)
        ensures
            match r {
                Ok(()) => old(self)@.with_directory(potential_child@) == Some(final(self)@),
                Err(back) => {
                    &&& back == potential_child
                    &&& final(self)@ == old(self)@
                    &&& old(self)@.with_directory(potential_child@) is None
                },
            },
            r is Ok <==> parent_of(potential_child@.path) is Some && old(self)@.has_path(
                parent_of(potential_child@.path)->0,
            ),
            old(self)@.well_formed() && potential_child@.well_formed()
                ==> final(self)@.well_formed(),
    {
        match self.try_insert_entry(TreeEntry::Directory(potential_child)) {
            Ok(()) => Ok(()),
            Err(TreeEntry::Directory(back)) => Err(back),
            Err(TreeEntry::Asset(_)) => {
                assert(false);
                vstd::pervasive::unreached()
            },
        }
    }

    /// Puts the asset into the directory whose path is the parent of the
    /// asset's path. Hands it back when there is no such directory.
    pub fn try_insert_asset(&mut self, potential_child: AssetType) -> (r: Result<(), AssetType>)
        ensures
            match r {
                Ok(()) => old(self)@.with_asset(potential_child@) == Some(final(self)@),
                Err(back) => {
                    &&& back == potential_child
                    &&& final(self)@ == old(self)@
                    &&& old(self)@.with_asset(potential_child@) is None
                },
            },
            r is Ok <==> parent_of(potential_child@.path()) is Some && old(self)@.has_path(
                parent_of(potential_child@.path())->0,
            ),
            old(self)@.well_formed() ==> final(self)@.well_formed(),
    {
        match self.try_insert_entry(TreeEntry::Asset(potential_child)) {
            Ok(()) => Ok(()),
            Err(TreeEntry::Asset(back)) => Err(back),
            Err(TreeEntry::Directory(_)) => {
                assert(false);
                vstd::pervasive::unreached()
            },
        }
    }

    /// An empty directory at `path`, named by the last segment of the path.
    pub fn new(path: String) -> (dir: AssetDirectory)
        ensures
            dir@ == DirectoryView::leaf(path@),
            dir@.well_formed(),
            dir@.paths_unique(),
    {
        proof {
            DirectoryView::lemma_leaf(path@);
        }
        let dir = AssetDirectory {
            name: file_name(path.as_str()),
            path,
            children_directories: Vec::new(),
            assets: Vec::new(),
        };
        assert(dir@.children =~= Seq::empty());
        assert(dir@.assets =~= Seq::empty());
        dir
    }

    /// The name of the directory.
    pub fn get_name(&self) -> (name: String)
        ensures
            name@ == self@.name,
    {
        self.name.clone()
    }

    /// The path of the directory.
    pub fn get_path(&self) -> (path: String)
        ensures
            path@ == self@.path,
    {
        self.path.clone()
    }
}

} // verus!
