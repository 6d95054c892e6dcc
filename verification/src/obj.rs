//! Text for the material file that accompanies an exported mesh.

use vstd::prelude::*;
use vstd::string::StringExecFns;

verus! {

/// The body of the material file: a fixed material definition followed by a
/// reference to the atlas image file.
pub fn generate_mtl_file(texture_file_name: &str) -> (r: String)
    ensures
        r@ == "newmtl material\nKa 0.2 0.2 0.2\nKd 0.8 0.8 0.8\nKs 1.0 1.0 1.0\nNs 200\nmap_Kd "@
            + texture_file_name@ + "\n"@,
{
    let mut s: String =
        "newmtl material\nKa 0.2 0.2 0.2\nKd 0.8 0.8 0.8\nKs 1.0 1.0 1.0\nNs 200\nmap_Kd ".to_owned();
    s.append(texture_file_name);
    s.append("\n");
    s
}

} // verus!
