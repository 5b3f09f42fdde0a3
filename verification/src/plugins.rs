//! Where the plugin libraries are found: `plugins/libraytracer_<kind>.<ext>`, with the
//! platform's extension for dynamic libraries (`so`, or `dylib` on macOS), which the
//! caller supplies.
use vstd::prelude::*;
use vstd::string::*;

verus! {

/// The file of the plugin `kind` with the given name prefix and library extension, in the
/// `plugins` folder.
fn plugin_file(prefix: &str, kind: &str, extension: &str) -> (p: String)
    ensures
        p@ == "plugins/"@ + prefix@ + kind@ + "."@ + extension@,
{
    let mut p = "plugins/".to_owned();
    p.append(prefix);
    p.append(kind);
    p.append(".");
    p.append(extension);
    p
}

/// The library that provides the primitive `kind`.
pub fn primitive_path(kind: &str, extension: &str) -> (p: String)
    ensures
        p@ == "plugins/"@ + "libraytracer_"@ + kind@ + "."@ + extension@,
{
    plugin_file("libraytracer_", kind, extension)
}

/// The library that provides the material `kind`.
pub fn material_path(kind: &str, extension: &str) -> (p: String)
    ensures
        p@ == "plugins/"@ + "libraytracer_material_"@ + kind@ + "."@ + extension@,
{
    plugin_file("libraytracer_material_", kind, extension)
}

/// The library that provides the light `kind`.
pub fn light_path(kind: &str, extension: &str) -> (p: String)
    ensures
        p@ == "plugins/"@ + "libraytracer_light_"@ + kind@ + "."@ + extension@,
{
    plugin_file("libraytracer_light_", kind, extension)
}

} // verus!
