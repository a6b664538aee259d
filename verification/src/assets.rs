//! Asset descriptors: the leaves of the asset directory tree.

use vstd::prelude::*;
use crate::path::{extension, extension_of, file_name, file_name_of};

verus! {

/// The kinds of asset the editor knows how to show.
#[derive(Clone, Copy, Debug, PartialEq, Eq, Structural)]
pub enum AssetKind {
    Image,
    Scene,
}

/// The kind that a file extension stands for: `png` and `hdr` are images,
/// `ron` is a scene, and nothing else is supported.
pub open spec fn kind_of_extension(ext: Seq<char>) -> Option<AssetKind> {
    if ext == "png"@ || ext == "hdr"@ {
        Some(AssetKind::Image)
    } else if ext == "ron"@ {
        Some(AssetKind::Scene)
    } else {
        None
    }
}

/// The kind of asset that the file at `path` holds, judged by its extension.
pub open spec fn kind_of_path(path: Seq<char>) -> Option<AssetKind> {
    match extension_of(path) {
        Some(ext) => kind_of_extension(ext),
        None => None,
    }
}

/// Whether two strings hold the same text.
fn same_text(a: &String, b: &str) -> (same: bool)
    ensures
        same == (a@ == b@),
{
    let b_owned = b.to_owned();
    *a == b_owned
}

impl AssetKind {
    /// Classifies a file by the extension of its path.
    pub fn of_path(path: &str) -> (kind: Option<AssetKind>)
        ensures
            kind == kind_of_path(path@),
    {
        match extension(path) {
            None => None,
            Some(ext) => {
                if same_text(&ext, "png") || same_text(&ext, "hdr") {
                    Some(AssetKind::Image)
                } else if same_text(&ext, "ron") {
                    Some(AssetKind::Scene)
                } else {
                    None
                }
            },
        }
    }
}

/// What every asset descriptor can tell about itself.
pub trait AssetDescriptor {
    /// The name of the asset, as a value of the model.
    spec fn name_spec(&self) -> Seq<char>;

    /// The path of the asset, as a value of the model.
    spec fn path_spec(&self) -> Seq<char>;

    /// The name of the asset, with its extension.
    fn get_name(&self) -> (name: String)
        ensures
            name@ == self.name_spec(),
    ;

    /// The path of the asset.
    fn get_path(&self) -> (path: String)
        ensures
            path@ == self.path_spec(),
    ;
}

/// Describes an image. The two handles are the keys under which the host
/// engine and its GUI layer know the loaded texture; the tree carries them
/// along and never looks at them.
#[derive(Debug)]
pub struct ImageAssetDescriptor {
    /// Name of the asset, with extension.
    pub name: String,
    /// Path of the asset.
    pub path: String,
    /// Key of the engine's handle to the image.
    pub bevy_handle: u64,
    /// Key of the GUI texture made from the image.
    pub egui_texture_id: u64,
}

/// The model of an `ImageAssetDescriptor`.
pub struct ImageAssetView {
    pub name: Seq<char>,
    pub path: Seq<char>,
    pub bevy_handle: u64,
    pub egui_texture_id: u64,
}

impl View for ImageAssetDescriptor {
    type V = ImageAssetView;

    open spec fn view(&self) -> ImageAssetView {
        ImageAssetView {
            name: self.name@,
            path: self.path@,
            bevy_handle: self.bevy_handle,
            egui_texture_id: self.egui_texture_id,
        }
    }
}

impl Clone for ImageAssetDescriptor {
    fn clone(&self) -> (copy: Self)
        ensures
            copy@ == self@,
    {
        ImageAssetDescriptor {
            name: self.name.clone(),
            path: self.path.clone(),
            bevy_handle: self.bevy_handle,
            egui_texture_id: self.egui_texture_id,
        }
    }
}

impl AssetDescriptor for ImageAssetDescriptor {
    open spec fn name_spec(&self) -> Seq<char> {
        self.name@
    }

    open spec fn path_spec(&self) -> Seq<char> {
        self.path@
    }

    fn get_name(&self) -> (name: String) {
        self.name.clone()
    }

    fn get_path(&self) -> (path: String) {
        self.path.clone()
    }
}

/// Describes a scene file.
#[derive(Debug)]
pub struct SceneAssetDescriptor {
    /// Name of the asset, with extension.
    pub name: String,
    /// Path of the asset.
    pub path: String,
}

/// The model of a `SceneAssetDescriptor`.
pub struct SceneAssetView {
    pub name: Seq<char>,
    pub path: Seq<char>,
}

impl View for SceneAssetDescriptor {
    type V = SceneAssetView;

    open spec fn view(&self) -> SceneAssetView {
        SceneAssetView { name: self.name@, path: self.path@ }
    }
}

impl Clone for SceneAssetDescriptor {
    fn clone(&self) -> (copy: Self)
        ensures
            copy@ == self@,
    {
        SceneAssetDescriptor { name: self.name.clone(), path: self.path.clone() }
    }
}

impl AssetDescriptor for SceneAssetDescriptor {
    open spec fn name_spec(&self) -> Seq<char> {
        self.name@
    }

    open spec fn path_spec(&self) -> Seq<char> {
        self.path@
    }

    fn get_name(&self) -> (name: String) {
        self.name.clone()
    }

    fn get_path(&self) -> (path: String) {
        self.path.clone()
    }
}

/// Every asset the editor supports.
#[derive(Debug)]
pub enum AssetType {
    Image(ImageAssetDescriptor),
    Scene(SceneAssetDescriptor),
}

/// The model of an `AssetType`.
pub enum AssetView {
    Image(ImageAssetView),
    Scene(SceneAssetView),
}

impl AssetView {
    /// The path of the asset.
    pub open spec fn path(self) -> Seq<char> {
        match self {
            AssetView::Image(image) => image.path,
            AssetView::Scene(scene) => scene.path,
        }
    }

    /// The name of the asset.
    pub open spec fn name(self) -> Seq<char> {
        match self {
            AssetView::Image(image) => image.name,
            AssetView::Scene(scene) => scene.name,
        }
    }

    /// The asset that `AssetType::try_create` makes for a file, if its
    /// extension is a supported one.
    pub open spec fn created(path: Seq<char>, bevy_handle: u64, egui_texture_id: u64) -> Option<
        AssetView,
    > {
        match kind_of_path(path) {
            Some(AssetKind::Image) => Some(
                AssetView::Image(
                    ImageAssetView {
                        name: file_name_of(path),
                        path,
                        bevy_handle,
                        egui_texture_id,
                    },
                ),
            ),
            Some(AssetKind::Scene) => Some(
                AssetView::Scene(SceneAssetView { name: file_name_of(path), path }),
            ),
            None => None,
        }
    }
}

impl View for AssetType {
    type V = AssetView;

    open spec fn view(&self) -> AssetView {
        match self {
            AssetType::Image(image) => AssetView::Image(image@),
            AssetType::Scene(scene) => AssetView::Scene(scene@),
        }
    }
}

impl Clone for AssetType {
    fn clone(&self) -> (copy: Self)
        ensures
            copy@ == self@,
    {
        match self {
            AssetType::Image(image) => AssetType::Image(image.clone()),
            AssetType::Scene(scene) => AssetType::Scene(scene.clone()),
        }
    }
}

impl AssetType {
    /// Makes the descriptor of the file at `path`, if its extension is a
    /// supported one. The handles are kept in the descriptor of an image and
    /// are not used for any other kind.
    pub fn try_create(path: &str, bevy_handle: u64, egui_texture_id: u64) -> (asset: Option<
        AssetType,
    >)
        ensures
            asset is Some <==> kind_of_path(path@) is Some,
            match asset {
                Some(a) => Some(a@) == AssetView::created(path@, bevy_handle, egui_texture_id),
                None => AssetView::created(path@, bevy_handle, egui_texture_id) is None,
            },
    {
        match AssetKind::of_path(path) {
            None => None,
            Some(AssetKind::Image) => Some(
                AssetType::Image(
                    ImageAssetDescriptor {
                        name: file_name(path),
                        path: path.to_owned(),
                        bevy_handle,
                        egui_texture_id,
                    },
                ),
            ),
            Some(AssetKind::Scene) => Some(
                AssetType::Scene(
                    SceneAssetDescriptor { name: file_name(path), path: path.to_owned() },
                ),
            ),
        }
    }

    /// Which kind of asset this is.
    pub fn kind(&self) -> (kind: AssetKind)
        ensures
            kind == AssetKind::Image <==> self@ is Image,
            kind == AssetKind::Scene <==> self@ is Scene,
    {
        match self {
            AssetType::Image(_) => AssetKind::Image,
            AssetType::Scene(_) => AssetKind::Scene,
        }
    }

    /// The path of the asset.
    pub fn get_path(&self) -> (path: String)
        ensures
            path@ == self@.path(),
    {
        match self {
            AssetType::Image(asset_descriptor) => asset_descriptor.get_path(),
            AssetType::Scene(asset_descriptor) => asset_descriptor.get_path(),
        }
    }

    /// The name of the asset.
    pub fn get_name(&self) -> (name: String)
        ensures
            name@ == self@.name(),
    {
        match self {
            AssetType::Image(asset_descriptor) => asset_descriptor.get_name(),
            AssetType::Scene(asset_descriptor) => asset_descriptor.get_name(),
        }
    }
}

} // verus!
