//! File-extension classification for color mapping.

use vstd::prelude::*;

verus! {

use crate::strutil::ascii_lower;
use crate::strutil::str_chars_eq;

/// File type categories for color mapping.
#[derive(Debug, Clone, Copy, PartialEq, Eq, Hash, Structural)]
pub enum FileCategory {
    Image,
    Video,
    Audio,
    Document,
    Ebook,
    Archive,
    Code,
    Executable,
    Config,
    Font,
    Installer,
    Asset3D,
    Backup,
    Database,
    DiskImage,
    /// Unknown or no extension.
    Other,
}

/// The category an already-lower-cased extension falls in.
pub open spec fn spec_categorize(bs: Seq<char>) -> FileCategory {
    if bs == "jpg"@ || bs == "jpeg"@ || bs == "png"@ || bs == "gif"@ || bs == "bmp"@ || bs == "svg"@ || bs == "webp"@ || bs == "ico"@ || bs == "tiff"@ || bs == "tif"@ || bs == "raw"@ || bs == "cr2"@ || bs == "nef"@ || bs == "heic"@ || bs == "avif"@ {
        FileCategory::Image
    } else
    if bs == "mp4"@ || bs == "avi"@ || bs == "mkv"@ || bs == "mov"@ || bs == "wmv"@ || bs == "flv"@ || bs == "webm"@ || bs == "m4v"@ || bs == "mpg"@ || bs == "mpeg"@ || bs == "3gp"@ || bs == "ts"@ {
        FileCategory::Video
    } else
    if bs == "mp3"@ || bs == "wav"@ || bs == "flac"@ || bs == "aac"@ || bs == "ogg"@ || bs == "wma"@ || bs == "m4a"@ || bs == "opus"@ || bs == "mid"@ || bs == "midi"@ {
        FileCategory::Audio
    } else
    if bs == "pdf"@ || bs == "doc"@ || bs == "docx"@ || bs == "txt"@ || bs == "rtf"@ || bs == "odt"@ || bs == "xls"@ || bs == "xlsx"@ || bs == "ppt"@ || bs == "pptx"@ || bs == "csv"@ || bs == "md"@ {
        FileCategory::Document
    } else
    if bs == "epub"@ || bs == "mobi"@ || bs == "azw3"@ || bs == "djvu"@ || bs == "djv"@ {
        FileCategory::Ebook
    } else
    if bs == "zip"@ || bs == "rar"@ || bs == "7z"@ || bs == "tar"@ || bs == "gz"@ || bs == "bz2"@ || bs == "xz"@ || bs == "zst"@ || bs == "lz4"@ || bs == "cab"@ {
        FileCategory::Archive
    } else
    if bs == "rs"@ || bs == "py"@ || bs == "js"@ || bs == "jsx"@ || bs == "tsx"@ || bs == "c"@ || bs == "cpp"@ || bs == "h"@ || bs == "hpp"@ || bs == "java"@ || bs == "go"@ || bs == "rb"@ || bs == "php"@ || bs == "html"@ || bs == "htm"@ || bs == "css"@ || bs == "scss"@ || bs == "less"@ || bs == "swift"@ || bs == "kt"@ || bs == "cs"@ || bs == "lua"@ || bs == "sh"@ || bs == "bash"@ || bs == "zsh"@ || bs == "fish"@ || bs == "sql"@ || bs == "r"@ || bs == "dart"@ || bs == "zig"@ || bs == "wasm"@ || bs == "vue"@ || bs == "svelte"@ {
        FileCategory::Code
    } else
    if bs == "exe"@ || bs == "dll"@ || bs == "sys"@ || bs == "bat"@ || bs == "cmd"@ || bs == "ps1"@ || bs == "com"@ || bs == "scr"@ || bs == "so"@ || bs == "dylib"@ || bs == "elf"@ {
        FileCategory::Executable
    } else
    if bs == "msi"@ || bs == "pkg"@ || bs == "deb"@ || bs == "rpm"@ || bs == "appimage"@ {
        FileCategory::Installer
    } else
    if bs == "ini"@ || bs == "cfg"@ || bs == "toml"@ || bs == "yaml"@ || bs == "yml"@ || bs == "json"@ || bs == "xml"@ || bs == "reg"@ || bs == "conf"@ || bs == "env"@ || bs == "properties"@ || bs == "lock"@ {
        FileCategory::Config
    } else
    if bs == "ttf"@ || bs == "otf"@ || bs == "woff"@ || bs == "woff2"@ || bs == "eot"@ {
        FileCategory::Font
    } else
    if bs == "blend"@ || bs == "fbx"@ || bs == "obj"@ || bs == "stl"@ || bs == "dae"@ || bs == "gltf"@ || bs == "glb"@ || bs == "usd"@ || bs == "usdz"@ {
        FileCategory::Asset3D
    } else
    if bs == "db"@ || bs == "sqlite"@ || bs == "sqlite3"@ || bs == "mdb"@ || bs == "accdb"@ {
        FileCategory::Database
    } else
    if bs == "iso"@ || bs == "img"@ || bs == "vhd"@ || bs == "vhdx"@ || bs == "vmdk"@ || bs == "qcow2"@ {
        FileCategory::DiskImage
    } else
    if bs == "bak"@ || bs == "old"@ || bs == "backup"@ {
        FileCategory::Backup
    } else {
        FileCategory::Other
    }
}

/// Classify a file extension (case-insensitive, ASCII) into a category.
#[verifier::rlimit(100)]
pub fn categorize_extension(ext: &str) -> (c: FileCategory)
    ensures
        c == spec_categorize(crate::strutil::lower_chars(ext@)),
{
    let lower = ascii_lower(ext);
    if str_chars_eq(lower.as_str(), "jpg") || str_chars_eq(lower.as_str(), "jpeg") || str_chars_eq(lower.as_str(), "png") || str_chars_eq(lower.as_str(), "gif") || str_chars_eq(lower.as_str(), "bmp") || str_chars_eq(lower.as_str(), "svg") || str_chars_eq(lower.as_str(), "webp") || str_chars_eq(lower.as_str(), "ico") || str_chars_eq(lower.as_str(), "tiff") || str_chars_eq(lower.as_str(), "tif") || str_chars_eq(lower.as_str(), "raw") || str_chars_eq(lower.as_str(), "cr2") || str_chars_eq(lower.as_str(), "nef") || str_chars_eq(lower.as_str(), "heic") || str_chars_eq(lower.as_str(), "avif") {
        FileCategory::Image
    } else
    if str_chars_eq(lower.as_str(), "mp4") || str_chars_eq(lower.as_str(), "avi") || str_chars_eq(lower.as_str(), "mkv") || str_chars_eq(lower.as_str(), "mov") || str_chars_eq(lower.as_str(), "wmv") || str_chars_eq(lower.as_str(), "flv") || str_chars_eq(lower.as_str(), "webm") || str_chars_eq(lower.as_str(), "m4v") || str_chars_eq(lower.as_str(), "mpg") || str_chars_eq(lower.as_str(), "mpeg") || str_chars_eq(lower.as_str(), "3gp") || str_chars_eq(lower.as_str(), "ts") {
        FileCategory::Video
    } else
    if str_chars_eq(lower.as_str(), "mp3") || str_chars_eq(lower.as_str(), "wav") || str_chars_eq(lower.as_str(), "flac") || str_chars_eq(lower.as_str(), "aac") || str_chars_eq(lower.as_str(), "ogg") || str_chars_eq(lower.as_str(), "wma") || str_chars_eq(lower.as_str(), "m4a") || str_chars_eq(lower.as_str(), "opus") || str_chars_eq(lower.as_str(), "mid") || str_chars_eq(lower.as_str(), "midi") {
        FileCategory::Audio
    } else
    if str_chars_eq(lower.as_str(), "pdf") || str_chars_eq(lower.as_str(), "doc") || str_chars_eq(lower.as_str(), "docx") || str_chars_eq(lower.as_str(), "txt") || str_chars_eq(lower.as_str(), "rtf") || str_chars_eq(lower.as_str(), "odt") || str_chars_eq(lower.as_str(), "xls") || str_chars_eq(lower.as_str(), "xlsx") || str_chars_eq(lower.as_str(), "ppt") || str_chars_eq(lower.as_str(), "pptx") || str_chars_eq(lower.as_str(), "csv") || str_chars_eq(lower.as_str(), "md") {
        FileCategory::Document
    } else
    if str_chars_eq(lower.as_str(), "epub") || str_chars_eq(lower.as_str(), "mobi") || str_chars_eq(lower.as_str(), "azw3") || str_chars_eq(lower.as_str(), "djvu") || str_chars_eq(lower.as_str(), "djv") {
        FileCategory::Ebook
    } else
    if str_chars_eq(lower.as_str(), "zip") || str_chars_eq(lower.as_str(), "rar") || str_chars_eq(lower.as_str(), "7z") || str_chars_eq(lower.as_str(), "tar") || str_chars_eq(lower.as_str(), "gz") || str_chars_eq(lower.as_str(), "bz2") || str_chars_eq(lower.as_str(), "xz") || str_chars_eq(lower.as_str(), "zst") || str_chars_eq(lower.as_str(), "lz4") || str_chars_eq(lower.as_str(), "cab") {
        FileCategory::Archive
    } else
    if str_chars_eq(lower.as_str(), "rs") || str_chars_eq(lower.as_str(), "py") || str_chars_eq(lower.as_str(), "js") || str_chars_eq(lower.as_str(), "jsx") || str_chars_eq(lower.as_str(), "tsx") || str_chars_eq(lower.as_str(), "c") || str_chars_eq(lower.as_str(), "cpp") || str_chars_eq(lower.as_str(), "h") || str_chars_eq(lower.as_str(), "hpp") || str_chars_eq(lower.as_str(), "java") || str_chars_eq(lower.as_str(), "go") || str_chars_eq(lower.as_str(), "rb") || str_chars_eq(lower.as_str(), "php") || str_chars_eq(lower.as_str(), "html") || str_chars_eq(lower.as_str(), "htm") || str_chars_eq(lower.as_str(), "css") || str_chars_eq(lower.as_str(), "scss") || str_chars_eq(lower.as_str(), "less") || str_chars_eq(lower.as_str(), "swift") || str_chars_eq(lower.as_str(), "kt") || str_chars_eq(lower.as_str(), "cs") || str_chars_eq(lower.as_str(), "lua") || str_chars_eq(lower.as_str(), "sh") || str_chars_eq(lower.as_str(), "bash") || str_chars_eq(lower.as_str(), "zsh") || str_chars_eq(lower.as_str(), "fish") || str_chars_eq(lower.as_str(), "sql") || str_chars_eq(lower.as_str(), "r") || str_chars_eq(lower.as_str(), "dart") || str_chars_eq(lower.as_str(), "zig") || str_chars_eq(lower.as_str(), "wasm") || str_chars_eq(lower.as_str(), "vue") || str_chars_eq(lower.as_str(), "svelte") {
        FileCategory::Code
    } else
    if str_chars_eq(lower.as_str(), "exe") || str_chars_eq(lower.as_str(), "dll") || str_chars_eq(lower.as_str(), "sys") || str_chars_eq(lower.as_str(), "bat") || str_chars_eq(lower.as_str(), "cmd") || str_chars_eq(lower.as_str(), "ps1") || str_chars_eq(lower.as_str(), "com") || str_chars_eq(lower.as_str(), "scr") || str_chars_eq(lower.as_str(), "so") || str_chars_eq(lower.as_str(), "dylib") || str_chars_eq(lower.as_str(), "elf") {
        FileCategory::Executable
    } else
    if str_chars_eq(lower.as_str(), "msi") || str_chars_eq(lower.as_str(), "pkg") || str_chars_eq(lower.as_str(), "deb") || str_chars_eq(lower.as_str(), "rpm") || str_chars_eq(lower.as_str(), "appimage") {
        FileCategory::Installer
    } else
    if str_chars_eq(lower.as_str(), "ini") || str_chars_eq(lower.as_str(), "cfg") || str_chars_eq(lower.as_str(), "toml") || str_chars_eq(lower.as_str(), "yaml") || str_chars_eq(lower.as_str(), "yml") || str_chars_eq(lower.as_str(), "json") || str_chars_eq(lower.as_str(), "xml") || str_chars_eq(lower.as_str(), "reg") || str_chars_eq(lower.as_str(), "conf") || str_chars_eq(lower.as_str(), "env") || str_chars_eq(lower.as_str(), "properties") || str_chars_eq(lower.as_str(), "lock") {
        FileCategory::Config
    } else
    if str_chars_eq(lower.as_str(), "ttf") || str_chars_eq(lower.as_str(), "otf") || str_chars_eq(lower.as_str(), "woff") || str_chars_eq(lower.as_str(), "woff2") || str_chars_eq(lower.as_str(), "eot") {
        FileCategory::Font
    } else
    if str_chars_eq(lower.as_str(), "blend") || str_chars_eq(lower.as_str(), "fbx") || str_chars_eq(lower.as_str(), "obj") || str_chars_eq(lower.as_str(), "stl") || str_chars_eq(lower.as_str(), "dae") || str_chars_eq(lower.as_str(), "gltf") || str_chars_eq(lower.as_str(), "glb") || str_chars_eq(lower.as_str(), "usd") || str_chars_eq(lower.as_str(), "usdz") {
        FileCategory::Asset3D
    } else
    if str_chars_eq(lower.as_str(), "db") || str_chars_eq(lower.as_str(), "sqlite") || str_chars_eq(lower.as_str(), "sqlite3") || str_chars_eq(lower.as_str(), "mdb") || str_chars_eq(lower.as_str(), "accdb") {
        FileCategory::Database
    } else
    if str_chars_eq(lower.as_str(), "iso") || str_chars_eq(lower.as_str(), "img") || str_chars_eq(lower.as_str(), "vhd") || str_chars_eq(lower.as_str(), "vhdx") || str_chars_eq(lower.as_str(), "vmdk") || str_chars_eq(lower.as_str(), "qcow2") {
        FileCategory::DiskImage
    } else
    if str_chars_eq(lower.as_str(), "bak") || str_chars_eq(lower.as_str(), "old") || str_chars_eq(lower.as_str(), "backup") {
        FileCategory::Backup
    } else {
        FileCategory::Other
    }
}

} // verus!
