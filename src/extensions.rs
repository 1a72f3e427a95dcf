//! Which files take part in packing, and how each kind of file is placed: aligned to a page,
//! stored without compression, or compressed.
use vstd::prelude::*;
use vstd::utf8::encode_utf8;

verus! {

/// The extensions of the resource kinds that the host engine knows.
pub open spec fn resource_extension_names() -> Seq<&'static str> {
    seq![
        "unknown",
        "acousticdata",
        "actionanimdb",
        "aiarch",
        "animgraph",
        "anims",
        "app",
        "archetypes",
        "areas",
        "audio_metadata",
        "audiovehcurveset",
        "behavior",
        "bikecurveset",
        "bk2",
        "bnk",
        "camcurveset",
        "ccstate",
        "cfoliage",
        "charcustpreset",
        "chromaset",
        "cminimap",
        "community",
        "conversations",
        "cooked_mlsetup",
        "cookedanims",
        "cookedapp",
        "cookedprefab",
        "credits",
        "csv",
        "cubemap",
        "curveresset",
        "curveset",
        "dat",
        "devices",
        "dlc_manifest",
        "dtex",
        "effect",
        "ent",
        "env",
        "envparam",
        "envprobe",
        "es",
        "facialcustom",
        "facialsetup",
        "fb2tl",
        "fnt",
        "folbrush",
        "foldest",
        "fp",
        "game",
        "gamedef",
        "garmentlayerparams",
        "genericanimdb",
        "geometry_cache",
        "gidata",
        "gradient",
        "hitrepresentation",
        "hp",
        "ies",
        "inkanim",
        "inkatlas",
        "inkcharcustomization",
        "inkenginesettings",
        "inkfontfamily",
        "inkfullscreencomposition",
        "inkgamesettings",
        "inkhud",
        "inklayers",
        "inkmenu",
        "inkshapecollection",
        "inkstyle",
        "inktypography",
        "inkwidget",
        "interaction",
        "journal",
        "journaldesc",
        "json",
        "lane_connections",
        "lane_polygons",
        "lane_spots",
        "lights",
        "lipmap",
        "location",
        "locopaths",
        "loot",
        "mappins",
        "matlib",
        "mesh",
        "mi",
        "mlmask",
        "mlsetup",
        "mltemplate",
        "morphtarget",
        "mt",
        "null_areas",
        "opusinfo",
        "opuspak",
        "particle",
        "phys",
        "physicalscene",
        "physmatlib",
        "poimappins",
        "psrep",
        "quest",
        "questphase",
        "redphysics",
        "regionset",
        "remt",
        "reps",
        "reslist",
        "rig",
        "scene",
        "scenerid",
        "scenesversions",
        "smartobject",
        "smartobjects",
        "sp",
        "spatial_representation",
        "streamingblock",
        "streamingquerydata",
        "streamingsector",
        "streamingsector_inplace",
        "streamingworld",
        "terrainsetup",
        "texarray",
        "traffic_collisions",
        "traffic_persistent",
        "vehcommoncurveset",
        "vehcurveset",
        "voicetags",
        "w2mesh",
        "w2mi",
        "wem",
        "workspot",
        "worldlist",
        "xbm",
        "xcube",
        "wdyn",
    ]
}

/// The extensions of the resource kinds that the host engine knows.
pub fn resource_extension_list() -> (r: Vec<&'static str>)
    ensures
        r@ == resource_extension_names(),
{
    vec![
        "unknown",
        "acousticdata",
        "actionanimdb",
        "aiarch",
        "animgraph",
        "anims",
        "app",
        "archetypes",
        "areas",
        "audio_metadata",
        "audiovehcurveset",
        "behavior",
        "bikecurveset",
        "bk2",
        "bnk",
        "camcurveset",
        "ccstate",
        "cfoliage",
        "charcustpreset",
        "chromaset",
        "cminimap",
        "community",
        "conversations",
        "cooked_mlsetup",
        "cookedanims",
        "cookedapp",
        "cookedprefab",
        "credits",
        "csv",
        "cubemap",
        "curveresset",
        "curveset",
        "dat",
        "devices",
        "dlc_manifest",
        "dtex",
        "effect",
        "ent",
        "env",
        "envparam",
        "envprobe",
        "es",
        "facialcustom",
        "facialsetup",
        "fb2tl",
        "fnt",
        "folbrush",
        "foldest",
        "fp",
        "game",
        "gamedef",
        "garmentlayerparams",
        "genericanimdb",
        "geometry_cache",
        "gidata",
        "gradient",
        "hitrepresentation",
        "hp",
        "ies",
        "inkanim",
        "inkatlas",
        "inkcharcustomization",
        "inkenginesettings",
        "inkfontfamily",
        "inkfullscreencomposition",
        "inkgamesettings",
        "inkhud",
        "inklayers",
        "inkmenu",
        "inkshapecollection",
        "inkstyle",
        "inktypography",
        "inkwidget",
        "interaction",
        "journal",
        "journaldesc",
        "json",
        "lane_connections",
        "lane_polygons",
        "lane_spots",
        "lights",
        "lipmap",
        "location",
        "locopaths",
        "loot",
        "mappins",
        "matlib",
        "mesh",
        "mi",
        "mlmask",
        "mlsetup",
        "mltemplate",
        "morphtarget",
        "mt",
        "null_areas",
        "opusinfo",
        "opuspak",
        "particle",
        "phys",
        "physicalscene",
        "physmatlib",
        "poimappins",
        "psrep",
        "quest",
        "questphase",
        "redphysics",
        "regionset",
        "remt",
        "reps",
        "reslist",
        "rig",
        "scene",
        "scenerid",
        "scenesversions",
        "smartobject",
        "smartobjects",
        "sp",
        "spatial_representation",
        "streamingblock",
        "streamingquerydata",
        "streamingsector",
        "streamingsector_inplace",
        "streamingworld",
        "terrainsetup",
        "texarray",
        "traffic_collisions",
        "traffic_persistent",
        "vehcommoncurveset",
        "vehcurveset",
        "voicetags",
        "w2mesh",
        "w2mi",
        "wem",
        "workspot",
        "worldlist",
        "xbm",
        "xcube",
        "wdyn",
    ]
}

/// Whether `a` and `b` hold the same bytes.
pub fn bytes_equal(a: &[u8], b: &[u8]) -> (r: bool)
    ensures
        r == (a@ == b@),
{
    if a.len() != b.len() {
        return false;
    }
    let mut i: usize = 0;
    while i < a.len()
        invariant
            a@.len() == b@.len(),
            i <= a@.len(),
            forall|k: int| 0 <= k < i ==> a@[k] == b@[k],
        decreases a@.len() - i,
    {
        if a[i] != b[i] {
            return false;
        }
        i = i + 1;
    }
    assert(a@ =~= b@);
    true
}

/// Whether `ext` is the UTF-8 of one of `names`.
pub open spec fn names_contain(names: Seq<&'static str>, ext: Seq<u8>) -> bool {
    exists|i: int| 0 <= i < names.len() && encode_utf8(names[i]@) == ext
}

/// Whether `ext` (lower case, without the dot) is one of `names`.
fn in_list(names: &Vec<&'static str>, ext: &[u8]) -> (r: bool)
    ensures
        r == names_contain(names@, ext@),
{
    let mut i: usize = 0;
    while i < names.len()
        invariant
            i <= names@.len(),
            forall|k: int| 0 <= k < i ==> encode_utf8(names@[k]@) != ext@,
        decreases names@.len() - i,
    {
        if bytes_equal(names[i].as_bytes(), ext) {
            return true;
        }
        i = i + 1;
    }
    false
}

/// Whether a file with extension `ext` (lower case, without the dot) takes part in packing:
/// a known resource kind, or `bin`.
pub fn is_packable_extension(ext: &[u8]) -> (r: bool)
    ensures
        r == (names_contain(resource_extension_names(), ext@) || ext@ == seq![98u8, 105u8, 110u8]),
{
    let names = resource_extension_list();
    if in_list(&names, ext) {
        return true;
    }
    let bin: [u8; 3] = [98u8, 105u8, 110u8];
    let r = bytes_equal(ext, bin.as_slice());
    assert(bin@ =~= seq![98u8, 105u8, 110u8]);
    r
}

/// Extensions (with the dot) of files placed at a 4096-byte boundary.
pub open spec fn aligned_extension_names() -> Seq<&'static str> {
    seq![".bk2", ".bnk", ".opusinfo", ".wem", ".bin"]
}

/// Extensions (with the dot) of files written without compression.
pub open spec fn uncompressed_extension_names() -> Seq<&'static str> {
    seq![".bk2", ".bnk", ".opusinfo", ".wem", ".bin", ".dat", ".opuspak"]
}

/// Extensions (with the dot) of files placed at a 4096-byte boundary.
pub fn get_aligned_file_extensions() -> (r: Vec<&'static str>)
    ensures
        r@ == aligned_extension_names(),
{
    vec![".bk2", ".bnk", ".opusinfo", ".wem", ".bin"]
}

/// Extensions (with the dot) of files written without compression.
pub fn get_uncompressed_file_extensions() -> (r: Vec<&'static str>)
    ensures
        r@ == uncompressed_extension_names(),
{
    vec![".bk2", ".bnk", ".opusinfo", ".wem", ".bin", ".dat", ".opuspak"]
}

/// Whether a file with extension `dot_ext` (lower case, with the dot) is page-aligned.
pub fn is_aligned_extension(dot_ext: &[u8]) -> (r: bool)
    ensures
        r == names_contain(aligned_extension_names(), dot_ext@),
{
    in_list(&get_aligned_file_extensions(), dot_ext)
}

/// Whether a file with extension `dot_ext` (lower case, with the dot) is stored as it is.
pub fn is_uncompressed_extension(dot_ext: &[u8]) -> (r: bool)
    ensures
        r == names_contain(uncompressed_extension_names(), dot_ext@),
{
    in_list(&get_uncompressed_file_extensions(), dot_ext)
}

} // verus!
