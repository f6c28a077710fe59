//! What a session decides before it touches any file and when it ends: the
//! format of the model, by the extension of its file name, and the exit code.

use vstd::prelude::*;

verus! {

/// The two encodings of a model file.
#[derive(Clone, Copy, Debug, PartialEq, Eq, Structural)]
pub enum AssetFormat {
    /// The binary encoding, `rbxm`.
    Binary,
    /// The XML encoding, `rbxmx`.
    Xml,
}

/// The extension names no encoding of a model.
#[derive(Clone, Copy, Debug, PartialEq, Eq, Structural)]
pub struct UnsupportedFormat;

/// The format that an extension stands for. The match is exact: no other
/// spelling or case is taken.
pub open spec fn format_for(extension: Seq<char>) -> Option<AssetFormat> {
    if extension == "rbxm"@ {
        Some(AssetFormat::Binary)
    } else if extension == "rbxmx"@ {
        Some(AssetFormat::Xml)
    } else {
        None
    }
}

/// The format of a model file, by the extension of its name; `None` stands
/// for a name without one.
pub fn format_of(extension: Option<&str>) -> (r: Result<AssetFormat, UnsupportedFormat>)
    ensures
        r == match extension {
            Some(e) => match format_for(e@) {
                Some(f) => Ok::<AssetFormat, UnsupportedFormat>(f),
                None => Err::<AssetFormat, UnsupportedFormat>(UnsupportedFormat),
            },
            None => Err::<AssetFormat, UnsupportedFormat>(UnsupportedFormat),
        },
{
    match extension {
        None => Err(UnsupportedFormat),
        Some(e) => {
            let given = e.to_owned();
            if given == "rbxm".to_owned() {
                Ok(AssetFormat::Binary)
            } else if given == "rbxmx".to_owned() {
                Ok(AssetFormat::Xml)
            } else {
                Err(UnsupportedFormat)
            }
        },
    }
}

/// The exit code of the program: 0 after a clean session, 1 after any fatal
/// error.
pub fn exit_code(clean: bool) -> (code: i32)
    ensures
        code == (if clean {
            0i32
        } else {
            1i32
        }),
{
    if clean {
        0
    } else {
        1
    }
}

} // verus!
