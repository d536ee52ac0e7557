//! Names that macOS strews over file systems.

use vstd::prelude::*;

use crate::text;

verus! {

/// Whether a name is one that macOS or its Finder makes for its own use.
pub open spec fn apple_metadata(name: Seq<char>) -> bool {
    ||| text::starts_with(name, "._"@)
    ||| name == ".DS_Store"@
    ||| name == ".localized"@
    ||| name == ".Spotlight-V100"@
    ||| name == ".Trashes"@
    ||| name == ".fseventsd"@
    ||| name == ".TemporaryItems"@
    ||| name == ".VolumeIcon.icns"@
}

/// Checks if a requested filename is macOS metadata noise. Answering at once that there is no
/// such file saves many round trips over the network.
pub fn is_apple_metadata(name: &str) -> (r: bool)
    ensures
        r == apple_metadata(name@),
{
    let chars = text::chars_of(name);
    text::has_prefix(&chars, "._") || text::equal(name, ".DS_Store") || text::equal(
        name,
        ".localized",
    ) || text::equal(name, ".Spotlight-V100") || text::equal(name, ".Trashes") || text::equal(
        name,
        ".fseventsd",
    ) || text::equal(name, ".TemporaryItems") || text::equal(name, ".VolumeIcon.icns")
}

} // verus!
